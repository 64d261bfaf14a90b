use puzzles::cpu::parse_commands;
use puzzles::cpu::Command;
use puzzles::cpu::Processor;

#[test]
fn test_parse_commands() {
    let input = "noop\naddx 1\nnoop";
    let commands = parse_commands(input);
    assert_eq!(commands.len(), 3);
    assert_eq!(commands[0], Command::Noop);
    assert_eq!(commands[1], Command::AddX(1));
    assert_eq!(commands[2], Command::Noop);
}

#[test]
fn test_processor_sampling() {
    let mut processor = Processor::new();
    assert_eq!(processor.cycle, 1);
    assert_eq!(processor.register, 1);
    // Run 19 noop cycles, then the 20th must sample register * cycle.
    for _ in 0..19 {
        let r = processor.process_noop();
        assert_eq!(r, None);
    }
    let r = processor.process_noop();
    assert_eq!(r, Some(20));
    assert_eq!(processor.cycle, 21);
}

#[test]
fn test_processor_addx() {
    let mut processor = Processor::new();
    let r = processor.process_addx(5);
    assert_eq!(r, None);
    assert_eq!(processor.cycle, 3);
    assert_eq!(processor.register, 6);
}
