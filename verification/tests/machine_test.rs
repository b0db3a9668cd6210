use brainfuck::{Error, Interpreter};

fn finished(program: &str, input: &str) -> Interpreter {
    let mut interpreter = Interpreter::new(
        program.as_bytes().to_vec(),
        input.as_bytes().to_vec(),
        Vec::new(),
    );
    assert_eq!(Ok(()), interpreter.execute());
    interpreter
}

#[test]
fn test_new_starts_with_one_zero_cell() {
    let interpreter = Interpreter::new(b"+.".to_vec(), b"xy".to_vec(), b"before".to_vec());
    assert_eq!(&vec![0u8], interpreter.memory());
    assert_eq!(0, interpreter.index());
    assert_eq!(0, interpreter.current());
    assert_eq!(0, interpreter.depth());
    assert_eq!(0, interpreter.get());
    assert!(!interpreter.skip());
    assert_eq!(b"before".to_vec(), *interpreter.output());
}

#[test]
fn test_output_is_appended_to_what_was_there() {
    let mut interpreter = Interpreter::new(b",.".to_vec(), b"!".to_vec(), b"hi".to_vec());
    assert_eq!(Ok(()), interpreter.execute());
    assert_eq!(b"hi!".to_vec(), *interpreter.output());
}

#[test]
fn test_move_right_grows_tape() {
    for n in [0usize, 1, 2, 7, 300] {
        let interpreter = finished(&">".repeat(n), "");
        assert_eq!(vec![0u8; n + 1], *interpreter.memory());
        assert_eq!(n, interpreter.index());
        assert_eq!(n, interpreter.current());
    }
}

#[test]
fn test_move_right_inside_tape_does_not_grow() {
    let interpreter = finished(">>><<>", "");
    assert_eq!(4, interpreter.memory().len());
    assert_eq!(2, interpreter.index());
}

#[test]
fn test_move_left_at_zero_is_absorbed() {
    let interpreter = finished("<<+", "");
    assert_eq!(0, interpreter.index());
    assert_eq!(vec![1u8], *interpreter.memory());
}

#[test]
fn test_increment_wraps() {
    assert_eq!(255, finished(&"+".repeat(255), "").get());
    assert_eq!(0, finished(&"+".repeat(256), "").get());
    assert_eq!(1, finished(&"+".repeat(257), "").get());
}

#[test]
fn test_decrement_wraps() {
    assert_eq!(255, finished("-", "").get());
    assert_eq!(254, finished("--", "").get());
    assert_eq!(0, finished(&"-".repeat(256), "").get());
}

#[test]
fn test_zero_loop_is_not_entered() {
    let interpreter = finished("[+.,>[-]<]", "a");
    assert_eq!(vec![0u8], *interpreter.memory());
    assert_eq!(0, interpreter.index());
    assert_eq!(0, interpreter.output().len());
    assert_eq!(10, interpreter.current());
    assert_eq!(0, interpreter.depth());
    assert!(!interpreter.awaits_input());
}

#[test]
fn test_zero_loop_leaves_input_unread() {
    let interpreter = finished("[,],.", "a");
    assert_eq!(b"a".to_vec(), *interpreter.output());
}

#[test]
fn test_loop_counts_down() {
    let interpreter = finished("+++++[>++<-]", "");
    assert_eq!(vec![0u8, 10], *interpreter.memory());
    assert_eq!(0, interpreter.index());
    assert_eq!(0, interpreter.depth());
    assert_eq!(12, interpreter.current());
}

#[test]
fn test_loop_body_runs_once_per_count() {
    let interpreter = finished("++++[.-]", "");
    assert_eq!(vec![4u8, 3, 2, 1], *interpreter.output());
    assert_eq!(0, interpreter.get());
    assert_eq!(0, interpreter.depth());
}

#[test]
fn test_clear_loop() {
    let interpreter = finished("-[-]", "");
    assert_eq!(0, interpreter.get());
    assert_eq!(0, interpreter.depth());
    let mut counted = Interpreter::new(b"+++[-]".to_vec(), Vec::new(), Vec::new());
    assert_eq!(Err(Error::StepLimit), counted.execute_bounded(3 + 2 * 3));
    assert_eq!(5, counted.current());
    let mut counted = Interpreter::new(b"+++[-]".to_vec(), Vec::new(), Vec::new());
    assert_eq!(Ok(()), counted.execute_bounded(3 + 2 * 3 + 1));
    assert_eq!(6, counted.current());
    assert_eq!(0, counted.get());
}

#[test]
fn test_nested_loops_restore_stack() {
    let mut interpreter = Interpreter::new(b"++[>++[>+<-]<-]".to_vec(), Vec::new(), Vec::new());
    assert_eq!(0, interpreter.depth());
    assert_eq!(Some(b'+'), interpreter.read());
    assert_eq!(Ok(()), interpreter.operate(b'+'));
    assert_eq!(Some(b'+'), interpreter.read());
    assert_eq!(Ok(()), interpreter.operate(b'+'));
    assert_eq!(Some(b'['), interpreter.read());
    assert_eq!(Ok(()), interpreter.operate(b'['));
    assert_eq!(1, interpreter.depth());
    assert_eq!(Err(Error::StepLimit), interpreter.execute_bounded(4));
    assert_eq!(2, interpreter.depth());
    assert_eq!(Ok(()), interpreter.execute());
    assert_eq!(0, interpreter.depth());
    assert_eq!(vec![0u8, 0, 4], *interpreter.memory());
}

#[test]
fn test_round_trip() {
    let input = "The quick brown fox\n\0\x7f";
    let interpreter = finished(&",.".repeat(input.len()), input);
    assert_eq!(input.as_bytes().to_vec(), *interpreter.output());
}

#[test]
fn test_round_trip_of_every_byte() {
    let input: Vec<u8> = (0..=255u8).collect();
    let mut interpreter = Interpreter::new(",.".repeat(256).into_bytes(), input.clone(), Vec::new());
    assert_eq!(Ok(()), interpreter.execute());
    assert_eq!(input, *interpreter.output());
}

#[test]
fn test_input_exhausted_leaves_cell() {
    let interpreter = finished("+++,", "");
    assert_eq!(3, interpreter.get());
    let interpreter = finished(",,.", "a");
    assert_eq!(b"a".to_vec(), *interpreter.output());
}

#[test]
fn test_other_bytes_are_ignored() {
    let interpreter = finished("a+ b\n+\tc+\0", "");
    assert_eq!(3, interpreter.get());
    assert_eq!(10, interpreter.current());
}

#[test]
fn test_empty_program() {
    let interpreter = finished("", "abc");
    assert_eq!(vec![0u8], *interpreter.memory());
    assert_eq!(0, interpreter.current());
    assert_eq!(0, interpreter.output().len());
}

#[test]
fn test_open_loop_at_end_is_no_error() {
    let interpreter = finished("+[[", "");
    assert_eq!(2, interpreter.depth());
    assert!(!interpreter.skip());
    let interpreter = finished("[[", "");
    assert_eq!(2, interpreter.depth());
    assert!(interpreter.skip());
}

#[test]
fn test_close_without_open_on_zero_cell() {
    let interpreter = finished("]+-]>]", "");
    assert_eq!(0, interpreter.depth());
    assert_eq!(6, interpreter.current());
    assert_eq!(0, interpreter.get());
}

#[test]
fn test_unmatched_close() {
    let mut interpreter = Interpreter::new(b"+].".to_vec(), Vec::new(), Vec::new());
    assert_eq!(Err(Error::UnmatchedClose), interpreter.execute());
    assert_eq!(2, interpreter.current());
    assert_eq!(1, interpreter.get());
    assert_eq!(0, interpreter.output().len());
}

#[test]
fn test_unmatched_close_behind_loop() {
    let mut interpreter = Interpreter::new(b"+[-]+]".to_vec(), Vec::new(), Vec::new());
    assert_eq!(Err(Error::UnmatchedClose), interpreter.execute());
    assert_eq!(6, interpreter.current());
}

#[test]
fn test_step_limit() {
    let mut interpreter = Interpreter::new(b"+[]".to_vec(), Vec::new(), Vec::new());
    assert_eq!(Err(Error::StepLimit), interpreter.execute_bounded(1000));
    assert_eq!(1, interpreter.get());
    assert_eq!(1, interpreter.depth());
    assert_eq!(2, interpreter.current());
}

#[test]
fn test_step_limit_is_exact() {
    let mut interpreter = Interpreter::new(b"+++".to_vec(), Vec::new(), Vec::new());
    assert_eq!(Err(Error::StepLimit), interpreter.execute_bounded(2));
    assert_eq!(2, interpreter.get());
    assert_eq!(2, interpreter.current());
    assert_eq!(Ok(()), interpreter.execute_bounded(1));
    assert_eq!(3, interpreter.get());
    let mut interpreter = Interpreter::new(b"+++".to_vec(), Vec::new(), Vec::new());
    assert_eq!(Ok(()), interpreter.execute_bounded(3));
    let mut interpreter = Interpreter::new(Vec::new(), Vec::new(), Vec::new());
    assert_eq!(Ok(()), interpreter.execute_bounded(0));
    let mut interpreter = Interpreter::new(b"+]".to_vec(), Vec::new(), Vec::new());
    assert_eq!(Err(Error::StepLimit), interpreter.execute_bounded(1));
    assert_eq!(Err(Error::UnmatchedClose), interpreter.execute_bounded(1));
}

#[test]
fn test_read_fetches_in_order() {
    let mut interpreter = Interpreter::new(b"+x".to_vec(), Vec::new(), Vec::new());
    assert_eq!(Some(b'+'), interpreter.read());
    assert_eq!(1, interpreter.current());
    assert_eq!(0, interpreter.get());
    assert_eq!(Some(b'x'), interpreter.read());
    assert_eq!(None, interpreter.read());
    assert_eq!(None, interpreter.read());
    assert_eq!(2, interpreter.current());
}

#[test]
fn test_operate_each_operator() {
    let mut interpreter = Interpreter::new(Vec::new(), b"z".to_vec(), Vec::new());
    assert_eq!(Ok(()), interpreter.operate(b'+'));
    assert_eq!(1, interpreter.get());
    assert_eq!(Ok(()), interpreter.operate(b'>'));
    assert_eq!(1, interpreter.index());
    assert_eq!(vec![1u8, 0], *interpreter.memory());
    assert_eq!(Ok(()), interpreter.operate(b'-'));
    assert_eq!(255, interpreter.get());
    assert_eq!(Ok(()), interpreter.operate(b'.'));
    assert_eq!(vec![255u8], *interpreter.output());
    assert_eq!(Ok(()), interpreter.operate(b','));
    assert_eq!(b'z', interpreter.get());
    assert_eq!(Ok(()), interpreter.operate(b'<'));
    assert_eq!(0, interpreter.index());
    assert_eq!(Ok(()), interpreter.operate(b'#'));
    assert_eq!(vec![1u8, b'z'], *interpreter.memory());
    assert_eq!(Err(Error::UnmatchedClose), interpreter.operate(b']'));
    assert_eq!(vec![1u8, b'z'], *interpreter.memory());
    assert_eq!(Ok(()), interpreter.operate(b'['));
    assert_eq!(1, interpreter.depth());
    assert!(!interpreter.skip());
}

#[test]
fn test_skip_mode_ignores_all_but_brackets() {
    let mut interpreter = Interpreter::new(Vec::new(), b"z".to_vec(), Vec::new());
    assert_eq!(Ok(()), interpreter.operate(b'['));
    assert!(interpreter.skip());
    for operator in [b'+', b'-', b'>', b'<', b'.', b',', b'x'] {
        assert_eq!(Ok(()), interpreter.operate(operator));
    }
    assert_eq!(vec![0u8], *interpreter.memory());
    assert_eq!(0, interpreter.index());
    assert_eq!(0, interpreter.output().len());
    assert_eq!(Ok(()), interpreter.operate(b'['));
    assert_eq!(2, interpreter.depth());
    assert!(interpreter.skip());
    assert_eq!(Ok(()), interpreter.operate(b']'));
    assert!(interpreter.skip());
    assert_eq!(Ok(()), interpreter.operate(b']'));
    assert!(!interpreter.skip());
    assert_eq!(0, interpreter.depth());
    assert_eq!(Ok(()), interpreter.operate(b','));
    assert_eq!(b'z', interpreter.get());
}

#[test]
fn test_loop_repeats_from_behind_its_open() {
    let mut interpreter = Interpreter::new(b"++[-]".to_vec(), Vec::new(), Vec::new());
    assert_eq!(Err(Error::StepLimit), interpreter.execute_bounded(5));
    assert_eq!(3, interpreter.current());
    assert_eq!(1, interpreter.depth());
    assert_eq!(1, interpreter.get());
}

#[test]
fn test_input_on_demand() {
    let mut interpreter = Interpreter::new(b"+[,.]".to_vec(), Vec::new(), Vec::new());
    let mut echoed = Vec::new();
    for byte in [b'a', b'b', 0u8] {
        while !interpreter.awaits_input() {
            let operator = interpreter.read().unwrap();
            assert_eq!(Ok(()), interpreter.operate(operator));
        }
        interpreter.supply_input(byte);
        assert!(!interpreter.awaits_input());
        let operator = interpreter.read().unwrap();
        assert_eq!(b',', operator);
        assert_eq!(Ok(()), interpreter.operate(operator));
        assert_eq!(byte, interpreter.get());
        let operator = interpreter.read().unwrap();
        assert_eq!(Ok(()), interpreter.operate(operator));
        let written = interpreter.take_output();
        assert_eq!(0, interpreter.output().len());
        echoed.extend(written);
    }
    assert_eq!(vec![b'a', b'b', 0u8], echoed);
    assert_eq!(Ok(()), interpreter.execute());
    assert_eq!(0, interpreter.depth());
}

#[test]
fn test_awaits_input_only_before_a_live_read() {
    let interpreter = Interpreter::new(b",".to_vec(), Vec::new(), Vec::new());
    assert!(interpreter.awaits_input());
    let interpreter = Interpreter::new(b",".to_vec(), b"a".to_vec(), Vec::new());
    assert!(!interpreter.awaits_input());
    let interpreter = Interpreter::new(b"+,".to_vec(), Vec::new(), Vec::new());
    assert!(!interpreter.awaits_input());
    let mut interpreter = Interpreter::new(b"[,]".to_vec(), Vec::new(), Vec::new());
    let operator = interpreter.read().unwrap();
    assert_eq!(Ok(()), interpreter.operate(operator));
    assert!(!interpreter.awaits_input());
    let interpreter = Interpreter::new(Vec::new(), Vec::new(), Vec::new());
    assert!(!interpreter.awaits_input());
}
