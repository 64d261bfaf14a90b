use puzzles::parser::LineType;
use puzzles::parser::Parser;

static TEST_DATA: &str = "$ cd /\n$ ls\ndir a\n14848514 b.txt\n8504156 c.dat\ndir d\n$ cd a\n$ ls\ndir e\n29116 f\n2557 g\n62596 h.lst\n$ cd e\n$ ls\n584 i\n$ cd ..\n$ cd ..\n$ cd d\n$ ls\n4060174 j\n8033020 d.log\n5626152 k\n7214296 l\n";

fn truncated() -> String {
    let mut lines: Vec<&str> = TEST_DATA.lines().collect();
    lines.remove(0); // remove $ cd /
    lines.join("\n")
}

#[test]
fn test_propagate_value() {
}

#[test]
fn test_parse_line() {
    let parser = Parser::new(TEST_DATA);
    assert_eq!(parser.parse_line_type("$ ls"), LineType::Command);
    assert_eq!(parser.parse_line_type("dir dfgjdlk"), LineType::Directory);
    assert_eq!(parser.parse_line_type("123456 dfgag"), LineType::File);
}

#[test]
fn test_parse_file() {
    let parser = Parser::new("");
    assert_eq!(parser.parse_file("123456 dfgag"), (123456, "dfgag".to_string()));
}

#[test]
fn test_parse_dir() {
    let parser = Parser::new("");
    assert_eq!(parser.parse_dir_name("dir dfgjdlk"), "dfgjdlk".to_string());
}

#[test]
fn test_process_ls() {
    let mut parser = Parser::new(&truncated());
    parser.process_ls();
    assert_eq!(parser.arena[0].size, 23352670);
}

#[test]
fn test_process_cd() {
    let mut parser = Parser::new(&truncated());
    parser.process_ls();
    parser.process_cd();
    let binding = parser.find_directories(|a| a.name == "a");
    let a_dir = binding.first().unwrap();
    assert_eq!(a_dir.name, "a");
    assert_eq!(a_dir.size, 0);
}

#[test]
fn test_parse() {
    let mut parser = Parser::new(TEST_DATA);
    parser.parse();
    let root = parser.get_root();
    assert_eq!(root.unwrap().size, 48381165);
}

#[test]
fn test_find_directories() {
    let mut parser = Parser::new(TEST_DATA);
    parser.parse();
    let directories = parser.find_directories(|dir| dir.size <= 100000);
    assert_eq!(directories.len(), 2);
}
