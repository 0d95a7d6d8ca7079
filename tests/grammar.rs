use clide::{from_lines, key_string_of_atom, render, render_with_docs, Atom, Clide, Group, Item, ParseError, Type};

fn lines(list: &[&str]) -> Vec<String> {
    list.iter().map(|s| s.to_string()).collect()
}

fn spec_error(list: &[&str]) -> String {
    match from_lines(&lines(list)) {
        Err(ParseError(m)) => m,
        Ok(s) => panic!("expected an error, got {:?}", s),
    }
}

#[test]
fn type_tokens_round_trip() {
    for t in [Type::Int, Type::Bool, Type::Str, Type::Path] {
        assert_eq!(Type::from_str(t.to_string()), Ok(t));
    }
    assert_eq!(Type::Path.to_string(), "PATH");
    assert_eq!(Type::from_str("int"), Err("Unknown type: int".to_string()));
}

#[test]
fn parses_atoms_of_every_kind() {
    let spec = from_lines(&lines(&["Usage:  prog\tgo [-q|--quiet] [--n=INT:3+] <f:PATH:a.txt> --x=STR"])).unwrap();
    assert_eq!(spec.prog, "prog");
    let cmd = &spec.commands[0];
    assert_eq!(cmd.name, "go");
    assert_eq!(cmd.items.len(), 5);
    assert_eq!(cmd.items[0], Item::Required(Group::Single(Atom::Lit("go".to_string()))));
    assert_eq!(
        cmd.items[1],
        Item::Optional(Group::Alt(vec![
            Atom::OptBool { long: None, short: Some("-q".to_string()) },
            Atom::OptBool { long: Some("--quiet".to_string()), short: None },
        ]))
    );
    assert_eq!(
        cmd.items[2],
        Item::Optional(Group::Single(Atom::OptVal {
            long: Some("--n".to_string()),
            short: None,
            ty: Type::Int,
            default: Some("3".to_string()),
            allow_repeat: true,
        }))
    );
    assert_eq!(
        cmd.items[3],
        Item::Required(Group::Single(Atom::Pos {
            name: "f".to_string(),
            ty: Type::Path,
            default: Some("a.txt".to_string()),
        }))
    );
    assert_eq!(
        cmd.items[4],
        Item::Required(Group::Single(Atom::OptVal {
            long: Some("--x".to_string()),
            short: None,
            ty: Type::Str,
            default: None,
            allow_repeat: false,
        }))
    );
}

#[test]
fn group_atoms_in_order() {
    let g = Group::Alt(vec![Atom::Lit("a".to_string()), Atom::Lit("b".to_string())]);
    let atoms = g.atoms();
    assert_eq!(atoms, vec![&Atom::Lit("a".to_string()), &Atom::Lit("b".to_string())]);
    let single = Group::Single(Atom::Lit("c".to_string()));
    assert_eq!(single.atoms(), vec![&Atom::Lit("c".to_string())]);
}

#[test]
fn spec_errors_name_their_cause() {
    assert_eq!(spec_error(&[]), "No usage lines");
    assert_eq!(spec_error(&["usage: x"]), "Line must start with 'Usage:'");
    assert_eq!(spec_error(&["Usage:"]), "Line must start with 'Usage:'");
    assert_eq!(spec_error(&["Usage: t <a:STR"]), "Unterminated positional: <a:STR");
    assert_eq!(spec_error(&["Usage: t -ab=INT"]), "Bad option: -ab=INT");
    assert_eq!(spec_error(&["Usage: t --n=FLOAT"]), "Unknown type: FLOAT: --n=FLOAT");
    assert_eq!(spec_error(&["Usage: t <a:TEXT>"]), "Unknown type: TEXT: <a:TEXT>");
    assert_eq!(spec_error(&["Usage: t <a>"]), "Bad positional: <a>");
    assert_eq!(spec_error(&["Usage: t x", "Usage: t <b>"]), "Bad positional: <b>");
}

#[test]
fn key_strings() {
    let both = Atom::OptBool { long: Some("--verbose".to_string()), short: Some("-v".to_string()) };
    assert_eq!(key_string_of_atom(&both), "-v, --verbose");
    let val = Atom::OptVal {
        long: Some("--inc".to_string()),
        short: None,
        ty: Type::Path,
        default: Some("x".to_string()),
        allow_repeat: true,
    };
    assert_eq!(key_string_of_atom(&val), "--inc=PATH:x+");
    let pos = Atom::Pos { name: "dir".to_string(), ty: Type::Str, default: None };
    assert_eq!(key_string_of_atom(&pos), "<dir:STR>");
    assert_eq!(key_string_of_atom(&Atom::Lit("go".to_string())), "go");
}

#[test]
fn usage_summary_leaves_out_command_literal() {
    let spec = from_lines(&lines(&[
        "Usage: mytool [-v|--verbose] serve [--port=INT:8080] <dir:PATH>",
        "Usage: mytool init <path:PATH>",
    ]))
    .unwrap();
    assert_eq!(
        render(&spec),
        "Usage:\n  serve [[-v]|[--verbose]] [[--port=INT:8080]] <dir:PATH> \n  init <path:PATH> \n"
    );
}

#[test]
fn docs_table_is_padded_and_merged() {
    let spec = from_lines(&lines(&["Usage: t go [--n=INT:3] <f:PATH>"])).unwrap();
    let docs = vec![("--n=INT:3".to_string(), "count".to_string())];
    assert_eq!(
        render_with_docs(&spec, &docs),
        "Usage:\n  go [[--n=INT:3]] <f:PATH> \n\nOptions & Arguments:\n  go         -  command\n  --n=INT:3  -  count\n  <f:PATH>   -  positional PATH\n"
    );
    assert_eq!(
        Clide::help_of(&lines(&["Usage: t go"])).unwrap(),
        "Usage:\n  go \n"
    );
}
