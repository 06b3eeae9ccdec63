use vstd::prelude::*;

verus! {

use vstd::pervasive::VecAdditionalExecFns;
use crate::compiler::Command;
use crate::compiler::well_formed;

/// Number of cells on the default tape.
pub const TAPE_LEN: usize = 10000;

/// Where the data pointer starts on the default tape: its midpoint.
pub const START_OFFSET: usize = TAPE_LEN / 2;

/// Upper bound on the number of instructions one run will execute. A run
/// that is still going after this many steps is reported instead of being
/// left to spin forever.
pub const STEP_LIMIT: u64 = 0xffff_ffff_ffff_ffff;

/// How a run can fail. Reading past the end of the input is not a failure;
/// it stores the zero byte.
#[derive(Clone, Copy, PartialEq, Eq, Structural, Debug)]
pub enum EvalError {
    /// The data pointer was about to leave the tape.
    DataPointerOutOfBounds,
    /// The run used up its step budget without halting.
    StepLimitExceeded,
}

/// The whole state of the virtual machine between two instructions: the
/// tape, the data pointer, the instruction pointer, the input not yet read,
/// and the output written so far.
pub struct MachineState {
    pub tape: Seq<u8>,
    pub dp: int,
    pub ip: int,
    pub input: Seq<u8>,
    pub output: Seq<u8>,
}

/// Cell arithmetic wraps modulo 256.
pub open spec fn wrap_inc(v: u8) -> u8 {
    if v == 255 {
        0
    } else {
        (v + 1) as u8
    }
}

pub open spec fn wrap_dec(v: u8) -> u8 {
    if v == 0 {
        255
    } else {
        (v - 1) as u8
    }
}

pub open spec fn dp_in_bounds(s: MachineState) -> bool {
    0 <= s.dp < s.tape.len()
}

/// The byte a read instruction stores: the next input byte, or zero once
/// the input is exhausted.
pub open spec fn next_input_byte(input: Seq<u8>) -> u8 {
    if input.len() > 0 {
        input[0]
    } else {
        0
    }
}

pub open spec fn rest_input(input: Seq<u8>) -> Seq<u8> {
    if input.len() > 0 {
        input.drop_first()
    } else {
        input
    }
}

/// One instruction of the machine. `None` is the fatal case: the data
/// pointer leaves the tape. A taken jump sets the instruction pointer to
/// the target and the step then advances it by one, so execution resumes
/// just after the other end of the bracket pair.
pub open spec fn step(cmds: Seq<Command>, s: MachineState) -> Option<MachineState>
    recommends
        0 <= s.ip < cmds.len(),
{
    match cmds[s.ip] {
        Command::IncrementDataPointer => {
            if 0 <= s.dp && s.dp + 1 < s.tape.len() {
                Some(MachineState { dp: s.dp + 1, ip: s.ip + 1, ..s })
            } else {
                None
            }
        },
        Command::DecrementDataPointer => {
            if 1 <= s.dp < s.tape.len() {
                Some(MachineState { dp: s.dp - 1, ip: s.ip + 1, ..s })
            } else {
                None
            }
        },
        Command::Increment => {
            if dp_in_bounds(s) {
                Some(
                    MachineState {
                        tape: s.tape.update(s.dp, wrap_inc(s.tape[s.dp])),
                        ip: s.ip + 1,
                        ..s
                    },
                )
            } else {
                None
            }
        },
        Command::Decrement => {
            if dp_in_bounds(s) {
                Some(
                    MachineState {
                        tape: s.tape.update(s.dp, wrap_dec(s.tape[s.dp])),
                        ip: s.ip + 1,
                        ..s
                    },
                )
            } else {
                None
            }
        },
        Command::WriteByte => {
            if dp_in_bounds(s) {
                Some(MachineState { output: s.output.push(s.tape[s.dp]), ip: s.ip + 1, ..s })
            } else {
                None
            }
        },
        Command::ReadByte => {
            if dp_in_bounds(s) {
                Some(
                    MachineState {
                        tape: s.tape.update(s.dp, next_input_byte(s.input)),
                        input: rest_input(s.input),
                        ip: s.ip + 1,
                        ..s
                    },
                )
            } else {
                None
            }
        },
        Command::JumpForwardIfZero(t) => {
            if dp_in_bounds(s) {
                Some(
                    MachineState {
                        ip: if s.tape[s.dp] == 0 {
                            t + 1
                        } else {
                            s.ip + 1
                        },
                        ..s
                    },
                )
            } else {
                None
            }
        },
        Command::JumpBackwardIfNonZero(t) => {
            if dp_in_bounds(s) {
                Some(
                    MachineState {
                        ip: if s.tape[s.dp] != 0 {
                            t + 1
                        } else {
                            s.ip + 1
                        },
                        ..s
                    },
                )
            } else {
                None
            }
        },
    }
}

/// Run the machine for at most `n` instructions. A halted machine stays
/// halted; a fatal step poisons the whole run.
pub open spec fn steps(cmds: Seq<Command>, s: MachineState, n: nat) -> Option<MachineState>
    decreases n,
{
    if n == 0 {
        Some(s)
    } else if !(0 <= s.ip < cmds.len()) {
        Some(s)
    } else {
        match step(cmds, s) {
            Some(s2) => steps(cmds, s2, (n - 1) as nat),
            None => None,
        }
    }
}

/// The machine as it is handed a program: nothing read, nothing written,
/// instruction pointer at the start.
pub open spec fn init_state(tape: Seq<u8>, dp: int, input: Seq<u8>) -> MachineState {
    MachineState { tape, dp, ip: 0, input, output: Seq::empty() }
}

/// What a run's outcome means in terms of the step relation. On success
/// some number of steps reaches a halted machine holding the final tape and
/// the returned output; each error names the state that was reached
/// instead.
pub open spec fn run_result_matches(
    cmds: Seq<Command>,
    init: MachineState,
    r: Result<Vec<u8>, EvalError>,
    fin_tape: Seq<u8>,
) -> bool {
    match r {
        Ok(out) => exists|n: nat|
            #![trigger steps(cmds, init, n)]
            n <= STEP_LIMIT && (steps(cmds, init, n) matches Some(s) && !(0 <= s.ip < cmds.len())
                && s.tape == fin_tape && s.output == out@),
        Err(EvalError::DataPointerOutOfBounds) => exists|n: nat|
            #![trigger steps(cmds, init, n)]
            n < STEP_LIMIT && (steps(cmds, init, n) matches Some(s) && 0 <= s.ip < cmds.len()
                && step(cmds, s) is None && s.tape == fin_tape),
        Err(EvalError::StepLimitExceeded) => (steps(cmds, init, STEP_LIMIT as nat) matches Some(s)
            && 0 <= s.ip < cmds.len() && s.tape == fin_tape),
    }
}

/// Taking one more step from a reachable, running state lands wherever that
/// state's own step goes.
pub proof fn lemma_steps_extend(cmds: Seq<Command>, s0: MachineState, n: nat, s: MachineState)
    requires
        steps(cmds, s0, n) == Some(s),
        0 <= s.ip < cmds.len(),
    ensures
        steps(cmds, s0, n + 1) == step(cmds, s),
    decreases n,
{
    if n == 0 {
        assert(s0 == s);
        match step(cmds, s) {
            Some(s2) => {
                assert(steps(cmds, s2, 0) == Some(s2));
            },
            None => {},
        }
    } else if !(0 <= s0.ip < cmds.len()) {
    } else {
        match step(cmds, s0) {
            Some(s1) => {
                lemma_steps_extend(cmds, s1, (n - 1) as nat, s);
            },
            None => {},
        }
    }
}

/// Running `a + b` instructions is running `a`, then `b` from wherever that
/// landed.
pub proof fn lemma_steps_compose(cmds: Seq<Command>, s: MachineState, a: nat, b: nat)
    ensures
        steps(cmds, s, a + b) == (match steps(cmds, s, a) {
            Some(m) => steps(cmds, m, b),
            None => None::<MachineState>,
        }),
    decreases a,
{
    if a == 0 {
    } else if !(0 <= s.ip < cmds.len()) {
    } else {
        match step(cmds, s) {
            Some(s2) => {
                lemma_steps_compose(cmds, s2, (a - 1) as nat, b);
            },
            None => {},
        }
    }
}

/// Law: the machine is deterministic. Any two step counts that reach a
/// halted machine from the same start reach the same machine, so a
/// successful run's output and final tape are unique.
pub proof fn lemma_run_deterministic(cmds: Seq<Command>, init: MachineState, n1: nat, n2: nat)
    requires
        steps(cmds, init, n1) is Some,
        !(0 <= steps(cmds, init, n1).unwrap().ip < cmds.len()),
        steps(cmds, init, n2) is Some,
        !(0 <= steps(cmds, init, n2).unwrap().ip < cmds.len()),
    ensures
        steps(cmds, init, n1) == steps(cmds, init, n2),
{
    if n1 <= n2 {
        lemma_steps_compose(cmds, init, n1, (n2 - n1) as nat);
    } else {
        lemma_steps_compose(cmds, init, n2, (n1 - n2) as nat);
    }
}

/// Law: a read instruction executed after the input is exhausted stores
/// zero in the current cell rather than failing.
pub proof fn lemma_input_exhausted_reads_zero(cmds: Seq<Command>, s: MachineState)
    requires
        0 <= s.ip < cmds.len(),
        cmds[s.ip] == Command::ReadByte,
        dp_in_bounds(s),
        s.input.len() == 0,
    ensures
        step(cmds, s) matches Some(s2) && s2.tape[s.dp] == 0 && s2.input == s.input,
{
}

/// Execute a compiled program on a caller-supplied tape, reading from
/// `input` and returning what the program wrote. The data pointer starts at
/// `data_pointer`; the instruction pointer at the first instruction.
#[verifier::loop_isolation(false)]
pub fn eval_on_tape(
    commands: &Vec<Command>,
    tape: &mut Vec<u8>,
    data_pointer: usize,
    input: &Vec<u8>,
) -> (r: Result<Vec<u8>, EvalError>)
    requires
        well_formed(commands@),
        data_pointer < old(tape).len(),
    ensures
        run_result_matches(
            commands@,
            init_state(old(tape)@, data_pointer as int, input@),
            r,
            final(tape)@,
        ),
{
    let ghost init = init_state(old(tape)@, data_pointer as int, input@);
    let mut instruction_pointer: usize = 0;
    let mut dp: usize = data_pointer;
    let mut in_pos: usize = 0;
    let mut output: Vec<u8> = Vec::new();
    let mut steps_taken: u64 = 0;

    proof {
        assert(input@.skip(0) =~= input@);
        assert(output@ =~= Seq::<u8>::empty());
        assert(steps(commands@, init, 0) == Some(init));
    }
    while instruction_pointer < commands.len() && steps_taken < STEP_LIMIT
        invariant
            steps(commands@, init, steps_taken as nat) == Some(
                MachineState {
                    tape: tape@,
                    dp: dp as int,
                    ip: instruction_pointer as int,
                    input: input@.skip(in_pos as int),
                    output: output@,
                },
            ),
            dp < tape.len(),
            in_pos <= input.len(),
        decreases STEP_LIMIT - steps_taken,
    {
        let ghost cur = MachineState {
            tape: tape@,
            dp: dp as int,
            ip: instruction_pointer as int,
            input: input@.skip(in_pos as int),
            output: output@,
        };
        proof {
            lemma_steps_extend(commands@, init, steps_taken as nat, cur);
        }
        let command = commands[instruction_pointer];
        match command {
            Command::IncrementDataPointer => {
                if dp + 1 < tape.len() {
                    dp = dp + 1;
                } else {
                    return Err(EvalError::DataPointerOutOfBounds);
                }
                instruction_pointer = instruction_pointer + 1;
            },
            Command::DecrementDataPointer => {
                if dp >= 1 {
                    dp = dp - 1;
                } else {
                    return Err(EvalError::DataPointerOutOfBounds);
                }
                instruction_pointer = instruction_pointer + 1;
            },
            Command::Increment => {
                let v = tape[dp];
                tape.set(
                    dp,
                    if v == 255 {
                        0
                    } else {
                        v + 1
                    },
                );
                instruction_pointer = instruction_pointer + 1;
            },
            Command::Decrement => {
                let v = tape[dp];
                tape.set(
                    dp,
                    if v == 0 {
                        255
                    } else {
                        v - 1
                    },
                );
                instruction_pointer = instruction_pointer + 1;
            },
            Command::WriteByte => {
                let v = tape[dp];
                output.push(v);
                instruction_pointer = instruction_pointer + 1;
            },
            Command::ReadByte => {
                let b: u8 = if in_pos < input.len() {
                    let b = input[in_pos];
                    in_pos = in_pos + 1;
                    b
                } else {
                    0
                };
                proof {
                    assert(input@.skip(in_pos as int) =~= rest_input(cur.input));
                }
                tape.set(dp, b);
                instruction_pointer = instruction_pointer + 1;
            },
            Command::JumpForwardIfZero(target) => {
                if tape[dp] == 0 {
                    instruction_pointer = target;
                }
                instruction_pointer = instruction_pointer + 1;
            },
            Command::JumpBackwardIfNonZero(target) => {
                if tape[dp] != 0 {
                    instruction_pointer = target;
                }
                instruction_pointer = instruction_pointer + 1;
            },
        }
        steps_taken = steps_taken + 1;
    }
    if instruction_pointer >= commands.len() {
        proof {
            assert(steps(commands@, init, steps_taken as nat) matches Some(s) && !(0 <= s.ip
                < commands@.len()) && s.tape == tape@ && s.output == output@);
        }
        Ok(output)
    } else {
        Err(EvalError::StepLimitExceeded)
    }
}

/// The default tape: every cell zero.
pub open spec fn zero_tape() -> Seq<u8> {
    Seq::new(TAPE_LEN as nat, |i: int| 0u8)
}

/// A run's outcome with the tape it ended on left unnamed: `eval` discards
/// its tape when it finishes.
pub open spec fn run_output_matches(
    cmds: Seq<Command>,
    init: MachineState,
    r: Result<Vec<u8>, EvalError>,
) -> bool {
    exists|fin_tape: Seq<u8>| #[trigger] run_result_matches(cmds, init, r, fin_tape)
}

/// Execute a compiled program on a fresh zeroed tape of the default length,
/// with the data pointer starting at the midpoint.
pub fn eval(commands: &Vec<Command>, input: &Vec<u8>) -> (r: Result<Vec<u8>, EvalError>)
    requires
        well_formed(commands@),
    ensures
        run_output_matches(
            commands@,
            init_state(zero_tape(), START_OFFSET as int, input@),
            r,
        ),
{
    let mut tape: Vec<u8> = vec![0u8; TAPE_LEN];
    proof {
        assert(tape@ =~= zero_tape());
    }
    let data_pointer = START_OFFSET;
    let r = eval_on_tape(commands, &mut tape, data_pointer, input);
    proof {
        assert(run_result_matches(
            commands@,
            init_state(zero_tape(), START_OFFSET as int, input@),
            r,
            tape@,
        ));
    }
    r
}

} // verus!
