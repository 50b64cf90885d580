use bf_interp::{loop_backwards, loop_forwards, output_char, step, Event, VmError, TAPE_LEN, VM};

fn machine_at(instr_ptr: usize, cell: i8) -> VM {
    let mut vm = VM::default();
    vm.instr_ptr = instr_ptr;
    vm.memory[0] = cell;
    vm
}

#[test]
fn fresh_machine_is_all_zero() {
    let vm = VM::default();
    assert_eq!(TAPE_LEN, 30000);
    assert_eq!(vm.memory.len(), TAPE_LEN);
    assert!(vm.memory.iter().all(|c| *c == 0));
    assert_eq!(vm.data_ptr, 0);
    assert_eq!(vm.instr_ptr, 0);
    assert_eq!(vm.current(), Ok(0));
}

#[test]
fn increment_wraps_at_the_maximum() {
    let mut vm = machine_at(0, 126);
    assert_eq!(vm.increment(), Ok(()));
    assert_eq!(vm.current(), Ok(127));
    assert_eq!(vm.increment(), Ok(()));
    assert_eq!(vm.current(), Ok(-128));
    assert_eq!(vm.increment(), Ok(()));
    assert_eq!(vm.current(), Ok(-127));
}

#[test]
fn decrement_wraps_at_the_minimum() {
    let mut vm = machine_at(0, -127);
    assert_eq!(vm.decrement(), Ok(()));
    assert_eq!(vm.current(), Ok(-128));
    assert_eq!(vm.decrement(), Ok(()));
    assert_eq!(vm.current(), Ok(127));
    let mut zero = VM::default();
    assert_eq!(zero.decrement(), Ok(()));
    assert_eq!(zero.current(), Ok(-1));
}

#[test]
fn increment_touches_the_current_cell_only() {
    let mut vm = VM::default();
    vm.data_ptr = 7;
    vm.instr_ptr = 3;
    assert_eq!(vm.increment(), Ok(()));
    assert_eq!(vm.memory[7], 1);
    assert_eq!(vm.memory.iter().filter(|c| **c != 0).count(), 1);
    assert_eq!(vm.data_ptr, 7);
    assert_eq!(vm.instr_ptr, 3);
}

#[test]
fn data_pointer_moves_inside_the_tape_only() {
    let mut vm = VM::default();
    assert_eq!(vm.move_left(), Err(VmError::TapeBounds));
    assert_eq!(vm.data_ptr, 0);
    assert_eq!(vm.move_right(), Ok(()));
    assert_eq!(vm.data_ptr, 1);
    assert_eq!(vm.move_left(), Ok(()));
    assert_eq!(vm.data_ptr, 0);
    vm.data_ptr = TAPE_LEN - 2;
    assert_eq!(vm.move_right(), Ok(()));
    assert_eq!(vm.data_ptr, TAPE_LEN - 1);
    assert_eq!(vm.move_right(), Err(VmError::TapeBounds));
    assert_eq!(vm.data_ptr, TAPE_LEN - 1);
}

#[test]
fn data_pointer_off_the_tape_is_a_fault() {
    let mut vm = VM::default();
    vm.data_ptr = TAPE_LEN;
    assert_eq!(vm.current(), Err(VmError::TapeBounds));
    assert_eq!(vm.increment(), Err(VmError::TapeBounds));
    assert_eq!(vm.decrement(), Err(VmError::TapeBounds));
    assert_eq!(vm.move_right(), Err(VmError::TapeBounds));
    assert_eq!(loop_forwards(&mut vm, "[]"), Err(VmError::TapeBounds));
    assert_eq!(loop_backwards(&mut vm, "[]"), Err(VmError::TapeBounds));
    assert_eq!(step(&mut vm, "."), Err(VmError::TapeBounds));
    assert_eq!(vm.move_left(), Ok(()));
    assert_eq!(vm.data_ptr, TAPE_LEN - 1);
    vm.data_ptr = TAPE_LEN + 1;
    assert_eq!(vm.move_left(), Err(VmError::TapeBounds));
    assert_eq!(vm.data_ptr, TAPE_LEN + 1);
}

#[test]
fn output_char_reads_the_cell_unsigned() {
    assert_eq!(output_char(0), '\0');
    assert_eq!(output_char(48), '0');
    assert_eq!(output_char(127), '\u{7f}');
    assert_eq!(output_char(-128), '\u{80}');
    assert_eq!(output_char(-1), '\u{ff}');
}

#[test]
fn forward_scan_stops_at_the_partner() {
    let program = "[[][]]";
    let mut vm = machine_at(0, 0);
    assert_eq!(loop_forwards(&mut vm, program), Ok(()));
    assert_eq!(vm.instr_ptr, 5);
    let mut vm = machine_at(1, 0);
    assert_eq!(loop_forwards(&mut vm, program), Ok(()));
    assert_eq!(vm.instr_ptr, 2);
    let mut vm = machine_at(3, 0);
    assert_eq!(loop_forwards(&mut vm, program), Ok(()));
    assert_eq!(vm.instr_ptr, 4);
}

#[test]
fn forward_scan_is_skipped_on_a_nonzero_cell() {
    let mut vm = machine_at(0, 1);
    assert_eq!(loop_forwards(&mut vm, "[[][]]"), Ok(()));
    assert_eq!(vm.instr_ptr, 0);
    let mut vm = machine_at(0, -1);
    assert_eq!(loop_forwards(&mut vm, "["), Ok(()));
    assert_eq!(vm.instr_ptr, 0);
}

#[test]
fn forward_scan_off_the_end_is_a_fault() {
    let mut vm = machine_at(0, 0);
    assert_eq!(loop_forwards(&mut vm, "[[]"), Err(VmError::ProgramBounds));
    assert_eq!(vm.instr_ptr, 0);
    let mut vm = machine_at(2, 0);
    assert_eq!(loop_forwards(&mut vm, "[]["), Err(VmError::ProgramBounds));
    assert_eq!(vm.instr_ptr, 2);
    let mut vm = machine_at(9, 0);
    assert_eq!(loop_forwards(&mut vm, "[]"), Err(VmError::ProgramBounds));
    assert_eq!(vm.instr_ptr, 9);
}

#[test]
fn backward_scan_stops_at_the_partner() {
    let program = "[[][]]";
    let mut vm = machine_at(5, 1);
    assert_eq!(loop_backwards(&mut vm, program), Ok(()));
    assert_eq!(vm.instr_ptr, 0);
    let mut vm = machine_at(2, 1);
    assert_eq!(loop_backwards(&mut vm, program), Ok(()));
    assert_eq!(vm.instr_ptr, 1);
    let mut vm = machine_at(4, -3);
    assert_eq!(loop_backwards(&mut vm, program), Ok(()));
    assert_eq!(vm.instr_ptr, 3);
}

#[test]
fn backward_scan_is_skipped_on_a_zero_cell() {
    let mut vm = machine_at(5, 0);
    assert_eq!(loop_backwards(&mut vm, "[[][]]"), Ok(()));
    assert_eq!(vm.instr_ptr, 5);
    let mut vm = machine_at(0, 0);
    assert_eq!(loop_backwards(&mut vm, "]"), Ok(()));
    assert_eq!(vm.instr_ptr, 0);
}

#[test]
fn backward_scan_off_the_start_is_a_fault() {
    let mut vm = machine_at(1, 1);
    assert_eq!(loop_backwards(&mut vm, "+]"), Err(VmError::ProgramBounds));
    assert_eq!(vm.instr_ptr, 1);
    let mut vm = machine_at(0, 1);
    assert_eq!(loop_backwards(&mut vm, "]"), Err(VmError::ProgramBounds));
    assert_eq!(vm.instr_ptr, 0);
    let mut vm = machine_at(2, 1);
    assert_eq!(loop_backwards(&mut vm, "]]]"), Err(VmError::ProgramBounds));
    assert_eq!(vm.instr_ptr, 2);
    let mut vm = machine_at(9, 1);
    assert_eq!(loop_backwards(&mut vm, "[]"), Err(VmError::ProgramBounds));
    assert_eq!(vm.instr_ptr, 9);
}

#[test]
fn scans_ignore_everything_but_brackets() {
    let program = "[a.>[+-<]x]";
    let mut vm = machine_at(0, 0);
    assert_eq!(loop_forwards(&mut vm, program), Ok(()));
    assert_eq!(vm.instr_ptr, 10);
    let mut vm = machine_at(10, 1);
    assert_eq!(loop_backwards(&mut vm, program), Ok(()));
    assert_eq!(vm.instr_ptr, 0);
}

#[test]
fn step_dispatches_each_instruction() {
    let program = "+>-<.x";
    let mut vm = VM::default();
    assert_eq!(step(&mut vm, program), Ok(Event::Quiet));
    assert_eq!((vm.memory[0], vm.data_ptr, vm.instr_ptr), (1, 0, 1));
    assert_eq!(step(&mut vm, program), Ok(Event::Quiet));
    assert_eq!((vm.memory[0], vm.data_ptr, vm.instr_ptr), (1, 1, 2));
    assert_eq!(step(&mut vm, program), Ok(Event::Quiet));
    assert_eq!((vm.memory[1], vm.data_ptr, vm.instr_ptr), (-1, 1, 3));
    assert_eq!(step(&mut vm, program), Ok(Event::Quiet));
    assert_eq!((vm.memory[0], vm.data_ptr, vm.instr_ptr), (1, 0, 4));
    assert_eq!(step(&mut vm, program), Ok(Event::Output('\u{1}')));
    assert_eq!((vm.memory[0], vm.data_ptr, vm.instr_ptr), (1, 0, 5));
    assert_eq!(step(&mut vm, program), Ok(Event::Quiet));
    assert_eq!((vm.memory[0], vm.data_ptr, vm.instr_ptr), (1, 0, 6));
    assert_eq!(step(&mut vm, program), Ok(Event::Halted));
    assert_eq!((vm.memory[0], vm.memory[1], vm.data_ptr, vm.instr_ptr), (1, -1, 0, 6));
}

#[test]
fn step_lands_behind_the_bracket_it_jumped_to() {
    let program = "[-]+";
    let mut vm = machine_at(0, 0);
    assert_eq!(step(&mut vm, program), Ok(Event::Quiet));
    assert_eq!(vm.instr_ptr, 3);
    let mut vm = machine_at(0, 2);
    assert_eq!(step(&mut vm, program), Ok(Event::Quiet));
    assert_eq!(vm.instr_ptr, 1);
    let mut vm = machine_at(2, 2);
    assert_eq!(step(&mut vm, program), Ok(Event::Quiet));
    assert_eq!(vm.instr_ptr, 1);
    let mut vm = machine_at(2, 0);
    assert_eq!(step(&mut vm, program), Ok(Event::Quiet));
    assert_eq!(vm.instr_ptr, 3);
}

#[test]
fn step_leaves_the_machine_alone_on_a_fault() {
    let mut vm = machine_at(1, 5);
    let tape = vm.memory;
    assert_eq!(step(&mut vm, "+]"), Err(VmError::ProgramBounds));
    assert!(vm.memory == tape);
    assert_eq!((vm.data_ptr, vm.instr_ptr), (0, 1));
    assert_eq!(step(&mut vm, "+<"), Err(VmError::TapeBounds));
    assert!(vm.memory == tape);
    assert_eq!((vm.data_ptr, vm.instr_ptr), (0, 1));
}

#[test]
fn decrement_loop_runs_its_body_once_per_count() {
    let counts: [i8; 6] = [0, 1, 2, 100, 127, -1];
    for count in counts {
        let mut vm = machine_at(0, count);
        let unsigned: usize = count as u8 as usize;
        let mut steps: usize = 0;
        let mut body_runs: usize = 0;
        loop {
            if vm.instr_ptr == 1 {
                body_runs += 1;
            }
            match step(&mut vm, "[-]") {
                Ok(Event::Halted) => break,
                Ok(event) => assert_eq!(event, Event::Quiet),
                Err(e) => panic!("fault {:?}", e),
            }
            steps += 1;
        }
        assert_eq!(body_runs, unsigned);
        assert_eq!(steps, 1 + 2 * unsigned);
        assert_eq!(vm.memory[0], 0);
        assert_eq!(vm.instr_ptr, 3);
    }
}

#[test]
fn sink_receives_each_output_in_order() {
    let program = "++++++++[>++++++++<-]>+.+.+.";
    let mut vm = VM::default();
    let mut received: Vec<char> = Vec::new();
    loop {
        match step(&mut vm, program) {
            Ok(Event::Halted) => break,
            Ok(Event::Output(c)) => received.push(c),
            Ok(Event::Quiet) => {}
            Err(e) => panic!("fault {:?}", e),
        }
    }
    assert_eq!(received, vec!['A', 'B', 'C']);
}

#[test]
fn walking_right_faults_behind_the_last_cell() {
    let program = "+[.>+]";
    let mut vm = VM::default();
    let mut emitted: usize = 0;
    let fault = loop {
        match step(&mut vm, program) {
            Ok(Event::Halted) => panic!("the program ended"),
            Ok(Event::Output(c)) => {
                assert_eq!(c, '\u{1}');
                emitted += 1;
            }
            Ok(Event::Quiet) => {}
            Err(e) => break e,
        }
    };
    assert_eq!(fault, VmError::TapeBounds);
    assert_eq!(emitted, TAPE_LEN);
    assert_eq!(vm.data_ptr, TAPE_LEN - 1);
    assert_eq!(vm.instr_ptr, 3);
    assert!(vm.memory.iter().all(|c| *c == 1));
}
