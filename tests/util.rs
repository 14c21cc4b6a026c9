use dimcheck::util::{get_system_include_flags, include_paths_from_probe, text_lines};

#[test]
fn include_flags_take_first_word() {
    let paths = vec![
        " /usr/include".to_string(),
        "/Library/Frameworks (framework directory)".to_string(),
        "\t/opt/x\u{3000}more".to_string(),
    ];
    let flags = get_system_include_flags(&paths);
    assert_eq!(
        flags,
        vec!["-I/usr/include".to_string(), "-I/Library/Frameworks".to_string(), "-I/opt/x".to_string()]
    );
    assert!(get_system_include_flags(&vec![]).is_empty());
}

#[test]
fn probe_output_search_list() {
    let output = "clang version 14\r\n#include \"...\" search starts here:\n#include <...> search starts here:\n /usr/lib/llvm-14/include\r\n  /usr/include \nEnd of search list.\n /ignored\n";
    assert_eq!(
        include_paths_from_probe(output),
        vec!["/usr/lib/llvm-14/include".to_string(), "/usr/include".to_string()]
    );
    assert!(include_paths_from_probe("no list here\n").is_empty());
    assert_eq!(text_lines("a\r\nb\n\nc"), vec!["a".to_string(), "b".to_string(), "".to_string(), "c".to_string()]);
    assert!(text_lines("").is_empty());
}
