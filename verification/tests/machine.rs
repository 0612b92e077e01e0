//! The machine itself: decode, arithmetic, comparisons, large values,
//! the state machine, and program loading.

use advent::intcode::{load_initial_memory, Address, Fault, Instruction, State, VM};

fn load(text: &str) -> Vec<i64> {
    load_initial_memory(text).unwrap()
}

#[test]
fn day02_part_one() {
    let ops = load("1,9,10,3,2,3,11,0,99,30,40,50");
    let res = advent::solutions::day02::run(&ops, 9, 10);
    assert_eq!(res, 3500);

    let ops = load("1,1,1,4,99,5,6,0,99");
    let res = advent::solutions::day02::run(&ops, 1, 1);
    assert_eq!(res, 30);

    let ops = load("1,0,0,0,99");
    let res = advent::solutions::day02::run(&ops, 0, 0);
    assert_eq!(res, 2);
}

#[test]
fn day05_part_two() {
    let mem = load(
        "3,21,1008,21,8,20,1005,20,22,107,8,21,20,1006,
      20,31,1106,0,36,98,0,0,1002,21,125,20,4,20,1105,
      1,46,104,999,1105,1,46,1101,1000,1,20,4,20,1105,
      1,46,98,99",
    );
    let mut vm = VM::new(&mem);
    vm.send(5);
    let res = vm.run();
    assert_eq!(res, 999);

    let mut vm = VM::new(&mem);
    vm.send(8);
    let res = vm.run();
    assert_eq!(res, 1000);

    let mut vm = VM::new(&mem);
    vm.send(13);
    let res = vm.run();
    assert_eq!(res, 1001);
}

#[test]
fn quine() {
    let mem = load("109,1,204,-1,1001,100,1,100,1008,100,16,101,1006,101,0,99");
    let mut vm = VM::new(&mem);
    let res = vm.run();

    assert!(mem.iter().zip(vm.outputs().iter()).all(|(&a, b)| a == *b));
    assert_eq!(vm.outputs().len(), mem.len());
    assert_eq!(res, 99);
}

#[test]
fn big_numbers() {
    let mem = load("104,1125899906842624,99");
    let mut vm = VM::new(&mem);
    let res = vm.run();
    assert_eq!(res, 1_125_899_906_842_624);
}

#[test]
fn big_numbers_two() {
    let mem = load("1102,34915192,34915192,7,4,7,99,0");
    let mut vm = VM::new(&mem);
    let res = vm.run();
    assert_eq!(res, 1_219_070_632_396_864);
}

#[test]
fn add_and_multiply_in_every_mode_pair() {
    // position/position, position/immediate, immediate/immediate
    let mut vm = VM::new(&load("1,5,6,0,99,17,25"));
    vm.run();
    assert_eq!(vm.peek(0), 42);

    let mut vm = VM::new(&load("1001,5,25,0,99,17"));
    vm.run();
    assert_eq!(vm.peek(0), 42);

    let mut vm = VM::new(&load("1101,17,25,0,99"));
    vm.run();
    assert_eq!(vm.peek(0), 42);

    let mut vm = VM::new(&load("2,5,6,0,99,6,7"));
    vm.run();
    assert_eq!(vm.peek(0), 42);

    let mut vm = VM::new(&load("1002,5,7,0,99,6"));
    vm.run();
    assert_eq!(vm.peek(0), 42);

    let mut vm = VM::new(&load("1102,6,7,0,99"));
    vm.run();
    assert_eq!(vm.peek(0), 42);
}

#[test]
fn self_modifying_growth() {
    let mut vm = VM::new(&load("1,0,0,0,99"));
    vm.run();
    assert_eq!(vm.peek(0), 2);
}

#[test]
fn decoding_twice_yields_identical_instructions() {
    let vm = VM::new(&load("1002,4,3,4,33"));
    let first = vm.op();
    let second = vm.op();
    assert_eq!(first, second);
    assert_eq!(
        first,
        Instruction::Multiply(
            Address::Position(4),
            Address::Immediate(3),
            Address::Position(4),
        )
    );
    assert_eq!(first.arity(), 4);
}

#[test]
fn state_machine_terminal_states() {
    let mut vm = VM::new(&load("99"));
    assert_eq!(vm.state(), State::Ready);
    vm.run();
    assert_eq!(vm.state(), State::Halted);

    let mut vm = VM::new(&load("98"));
    vm.run();
    assert_eq!(vm.state(), State::Faulted(Fault::UnknownOpcode(98)));

    let mut vm = VM::new(&load("1105,1,123456,99"));
    vm.run();
    assert_eq!(vm.state(), State::Faulted(Fault::OutOfBounds));

    // an input instruction with nothing queued suspends, and more
    // input resumes it
    let mut vm = VM::new(&load("3,0,4,0,99"));
    let res = vm.run();
    assert_eq!(vm.state(), State::Running);
    assert_eq!(res, 0);
    vm.send(7);
    let res = vm.run();
    assert_eq!(vm.state(), State::Halted);
    assert_eq!(res, 7);
}

#[test]
fn relative_base_addressing() {
    // adjust the base, then write and read through it
    let mut vm = VM::new(&load("109,2000,204,1,99"));
    vm.poke(2001, 777);
    let res = vm.run();
    assert_eq!(res, 777);
}

#[test]
fn load_accepts_signs_and_whitespace() {
    assert_eq!(load(" 1 , -2 ,\t+3 ,4 "), vec![1, -2, 3, 4]);
    assert_eq!(
        load("9223372036854775807,-9223372036854775808"),
        vec![i64::MAX, i64::MIN]
    );
}

#[test]
fn load_rejects_malformed_tokens() {
    assert!(load_initial_memory("1,x,3").is_err());
    assert!(load_initial_memory("").is_err());
    assert!(load_initial_memory("1,,3").is_err());
    assert!(load_initial_memory("12-3").is_err());
    assert!(load_initial_memory("9223372036854775808").is_err());
}
