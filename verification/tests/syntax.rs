use path_sense_lsp::glob::{CompiledGlob, CompiledGlobSet};
use path_sense_lsp::syntax::SyntaxState;

#[test]
fn supported_languages_always_parse_and_reparse() {
    let mut state = SyntaxState::new("Rust", "let p = \"./src\";").expect("rust grammar loads");
    assert!(state.reparse_full("fn main() {}"));
    assert!(SyntaxState::new("Plain Text", "x").is_none());
}

#[test]
fn single_globs_compile_through_a_glob_set() {
    let glob = CompiledGlob::new("src/**").expect("glob");
    assert!(glob.is_match("src/main.rs"));
    assert!(!glob.is_match("docs/readme.md"));
    assert!(CompiledGlob::new("a[").is_none());
    let set = CompiledGlobSet::build(&["a[".to_string(), "vendor/**".to_string()]).expect("set");
    assert!(set.is_match("vendor/lib.rs"));
    assert!(CompiledGlobSet::build(&["a[".to_string()]).is_none());
}
