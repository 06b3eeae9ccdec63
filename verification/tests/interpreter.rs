use brainfuck::Command;
use brainfuck::EvalError;
use brainfuck::ParsingError;
use brainfuck::compile;
use brainfuck::eval;
use brainfuck::eval_on_tape;

/// A loop that transfers a value from one cell to the next.
#[test]
fn test_eval_add() {
    let mut tape: Vec<u8> = vec![1, 2];
    let data_pointer: usize = 0;

    // [->+<]
    let commands: Vec<Command> = vec![
        Command::JumpForwardIfZero(5),
        Command::Decrement,
        Command::IncrementDataPointer,
        Command::Increment,
        Command::DecrementDataPointer,
        Command::JumpBackwardIfNonZero(0),
    ];

    let input: Vec<u8> = vec![0_u8];
    eval_on_tape(&commands, &mut tape, data_pointer, &input).unwrap();

    assert_eq!(tape[0], 0);
    assert_eq!(tape[1], 1 + 2);
}

/// The full classical greeting program.
#[test]
fn test_hello_world() {
    let source_code = "++++++++[>++++[>++>+++>+++>+<<<<-]>+>+>->>+[<]<-]\
        >>.>---.+++++++..+++.>>.<-.<.+++.------.--------.>>+.>++.";
    let input: Vec<u8> = vec![0_u8];

    let program = compile(source_code).unwrap();
    let output = eval(&program, &input).unwrap();

    assert_eq!(output, "Hello World!\n".as_bytes());
}

/// An echo program that copies its input to its output, stopping at the
/// zero sentinel.
#[test]
fn test_cat() {
    let source_code = ">,[>,]<[<]>[.>]";
    let reader: Vec<u8> = "Hello, World!\0".as_bytes().to_vec();

    let program = compile(source_code).unwrap();
    let output = eval(&program, &reader).unwrap();

    assert_eq!(output, reader[..reader.len() - 1]);
}

/// The exact instruction list a bracketed loop compiles to: each jump ends
/// up at one bracket's slot carrying the other bracket's index.
#[test]
fn test_compile_transfer_loop() {
    let program = compile("[->+<]").unwrap();
    let expected: Vec<Command> = vec![
        Command::JumpForwardIfZero(5),
        Command::Decrement,
        Command::IncrementDataPointer,
        Command::Increment,
        Command::DecrementDataPointer,
        Command::JumpBackwardIfNonZero(0),
    ];
    assert_eq!(program, expected);
}

/// Nested brackets pair inside out.
#[test]
fn test_compile_nested_brackets() {
    let program = compile("[[]]").unwrap();
    let expected: Vec<Command> = vec![
        Command::JumpForwardIfZero(3),
        Command::JumpForwardIfZero(2),
        Command::JumpBackwardIfNonZero(1),
        Command::JumpBackwardIfNonZero(0),
    ];
    assert_eq!(program, expected);
}

/// An empty source compiles to an empty program, and running it does
/// nothing.
#[test]
fn test_compile_empty() {
    let program = compile("").unwrap();
    assert_eq!(program, Vec::<Command>::new());
    let input: Vec<u8> = Vec::new();
    let output = eval(&program, &input).unwrap();
    assert_eq!(output, Vec::<u8>::new());
}

/// A closing bracket with no partner is reported at its filtered index.
#[test]
fn test_unmatched_closing_bracket() {
    assert_eq!(compile("]"), Err(ParsingError::UnmatchedBracket(0)));
    assert_eq!(compile("++]"), Err(ParsingError::UnmatchedBracket(2)));
}

/// An opening bracket left open is reported at the earliest such bracket.
#[test]
fn test_unmatched_opening_bracket() {
    assert_eq!(compile("["), Err(ParsingError::UnmatchedBracket(0)));
    assert_eq!(compile("+[+["), Err(ParsingError::UnmatchedBracket(1)));
}

/// Error positions count only instruction characters, never inert ones.
#[test]
fn test_error_position_ignores_comments() {
    assert_eq!(compile("a comment ]"), Err(ParsingError::UnmatchedBracket(0)));
    assert_eq!(compile("+ one ] two"), Err(ParsingError::UnmatchedBracket(1)));
}

/// Inert characters anywhere in the source change nothing about the
/// compiled program.
#[test]
fn test_comment_transparency() {
    let plain = compile("+[-]").unwrap();
    let noisy = compile("  + go [ x - y ] stop  ").unwrap();
    assert_eq!(plain, noisy);
}

/// Compiling the same source twice yields element-wise identical programs.
#[test]
fn test_idempotent_compilation() {
    let source = "++[>+<-]>.";
    let first = compile(source).unwrap();
    let second = compile(source).unwrap();
    assert_eq!(first, second);
}

/// A read past the end of the input stores zero instead of failing.
#[test]
fn test_input_exhausted_reads_zero() {
    let mut tape: Vec<u8> = vec![7];
    let commands = compile(",").unwrap();
    let input: Vec<u8> = Vec::new();
    eval_on_tape(&commands, &mut tape, 0, &input).unwrap();
    assert_eq!(tape[0], 0);
}

/// Cell arithmetic wraps modulo 256 in both directions.
#[test]
fn test_cell_arithmetic_wraps() {
    let mut tape: Vec<u8> = vec![255];
    let commands = compile("+").unwrap();
    let input: Vec<u8> = Vec::new();
    eval_on_tape(&commands, &mut tape, 0, &input).unwrap();
    assert_eq!(tape[0], 0);

    let mut tape: Vec<u8> = vec![0];
    let commands = compile("-").unwrap();
    eval_on_tape(&commands, &mut tape, 0, &input).unwrap();
    assert_eq!(tape[0], 255);
}

/// Moving the data pointer off either end of the tape is reported.
#[test]
fn test_data_pointer_leaves_tape() {
    let input: Vec<u8> = Vec::new();

    let mut tape: Vec<u8> = vec![0, 0];
    let commands = compile("<").unwrap();
    let result = eval_on_tape(&commands, &mut tape, 0, &input);
    assert_eq!(result, Err(EvalError::DataPointerOutOfBounds));

    let mut tape: Vec<u8> = vec![0, 0];
    let commands = compile(">>").unwrap();
    let result = eval_on_tape(&commands, &mut tape, 0, &input);
    assert_eq!(result, Err(EvalError::DataPointerOutOfBounds));
}

/// An output instruction writes the current cell, byte for byte.
#[test]
fn test_output_writes_current_cell() {
    let mut tape: Vec<u8> = vec![65, 66];
    let commands = compile(".>.").unwrap();
    let input: Vec<u8> = Vec::new();
    let output = eval_on_tape(&commands, &mut tape, 0, &input).unwrap();
    assert_eq!(output, vec![65, 66]);
}

/// A skipped loop is skipped whole: with the current cell zero the forward
/// jump lands past the closing bracket.
#[test]
fn test_forward_jump_skips_loop() {
    let mut tape: Vec<u8> = vec![0, 9];
    let commands = compile("[+.]").unwrap();
    let input: Vec<u8> = Vec::new();
    let output = eval_on_tape(&commands, &mut tape, 0, &input).unwrap();
    assert_eq!(output, Vec::<u8>::new());
    assert_eq!(tape, vec![0, 9]);
}
