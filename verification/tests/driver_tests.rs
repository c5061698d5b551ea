use zanbil::driver::{matches_source_kind, select_compiler};

fn matches(path: &[u8], cpp: bool) -> bool {
    matches_source_kind(&path.to_vec(), cpp)
}

#[test]
fn c_mode_selects_only_c_sources() {
    assert!(matches(b"src/lib.c", false));
    assert!(matches(b"a.c", false));
    assert!(!matches(b"src/lib.cpp", false));
    assert!(!matches(b"src/lib.rs", false));
    assert!(!matches(b"src/lib", false));
    assert!(!matches(b"src/.c", false));
    assert!(!matches(b"src/lib.C", false));
}

#[test]
fn cpp_mode_selects_only_cpp_sources() {
    assert!(matches(b"src/lib.cpp", true));
    assert!(matches(b"deep/er/tree/x.y.cpp", true));
    assert!(!matches(b"src/lib.c", true));
    assert!(!matches(b"src/lib.cp", true));
    assert!(!matches(b"src/.cpp", true));
}

#[test]
fn extension_is_taken_from_the_file_name_only() {
    assert!(!matches(b"dir.c/readme", false));
    assert!(matches(b"dir.cpp/x.c", false));
}

#[test]
fn conventional_compilers_without_overrides() {
    let choice = select_compiler(None, None, None);
    assert_eq!(choice.compiler, b"zanbil_cc".to_vec());
    assert!(!choice.is_cpp);
    assert_eq!(choice.std_flag, None);

    let choice = select_compiler(Some(17), None, None);
    assert_eq!(choice.compiler, b"zanbil_c++".to_vec());
    assert!(choice.is_cpp);
    assert_eq!(choice.std_flag, Some(b"c++17".to_vec()));
}

#[test]
fn overrides_win_for_their_own_mode_only() {
    let choice = select_compiler(None, Some(b"clang++".to_vec()), Some(b"cc9".to_vec()));
    assert_eq!(choice.compiler, b"cc9".to_vec());

    let choice = select_compiler(Some(23), Some(b"clang++".to_vec()), Some(b"cc9".to_vec()));
    assert_eq!(choice.compiler, b"clang++".to_vec());
    assert_eq!(choice.std_flag, Some(b"c++23".to_vec()));
}

#[test]
fn standard_flag_digits_are_exact() {
    assert_eq!(select_compiler(Some(5), None, None).std_flag, Some(b"c++5".to_vec()));
    assert_eq!(select_compiler(Some(98), None, None).std_flag, Some(b"c++98".to_vec()));
    assert_eq!(select_compiler(Some(203), None, None).std_flag, Some(b"c++203".to_vec()));
}
