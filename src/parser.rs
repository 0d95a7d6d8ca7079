//! Usage lines to a [`Spec`].
use vstd::prelude::*;
use vstd::string::*;
use crate::grammar::{
    Atom, AtomView, Command, CommandView, Group, GroupView, Item, ItemView, Spec, SpecView, Type,
    atoms_view, commands_view, first_lit, first_lit_from, items_view, type_of_token,
};
use crate::text::{
    chars_of, concat_text, pieces, slice_text, split_at_first, split_first, split_pieces,
    split_words, text_opt, texts, words,
};

verus! {

/// A malformed usage line, with what was wrong with it.
#[derive(Debug)]
pub struct ParseError(pub String);

/// What can be wrong with usage lines.
pub enum SpecFault {
    NoLines,
    NotUsageLine,
    UnterminatedPositional(Seq<char>),
    BadOption(Seq<char>),
    UnknownType(Seq<char>, Seq<char>),
    BadPositional(Seq<char>),
}

impl SpecFault {
    /// The message that reports this fault.
    pub open spec fn message(self) -> Seq<char> {
        match self {
            SpecFault::NoLines => "No usage lines"@,
            SpecFault::NotUsageLine => "Line must start with 'Usage:'"@,
            SpecFault::UnterminatedPositional(t) => "Unterminated positional: "@ + t,
            SpecFault::BadOption(t) => "Bad option: "@ + t,
            SpecFault::UnknownType(ty, t) => "Unknown type: "@ + ty + ": "@ + t,
            SpecFault::BadPositional(t) => "Bad positional: "@ + t,
        }
    }
}

/// A long option name: two dashes and at least one more character.
pub open spec fn is_long(s: Seq<char>) -> bool {
    s.len() >= 3 && s[0] == '-' && s[1] == '-'
}

/// A short option name: one dash and one character that is not a dash.
pub open spec fn is_short(s: Seq<char>) -> bool {
    s.len() == 2 && s[0] == '-' && s[1] != '-'
}

/// The atom that `<name:TYPE>` or `<name:TYPE:default>` declares.
pub open spec fn positional_of(t: Seq<char>) -> Result<AtomView, SpecFault> {
    let parts = pieces(t.subrange(1, t.len() - 1), ':');
    if parts.len() == 2 || parts.len() == 3 {
        match type_of_token(parts[1]) {
            None => Err(SpecFault::UnknownType(parts[1], t)),
            Some(ty) => Ok(
                AtomView::Pos {
                    name: parts[0],
                    ty,
                    default: if parts.len() == 3 {
                        Some(parts[2])
                    } else {
                        None
                    },
                },
            ),
        }
    } else {
        Err(SpecFault::BadPositional(t))
    }
}

/// The atom that an option token declares: a flag without `=`, a value
/// option with `=TYPE`, `=TYPE:default`, either of them followed by `+`.
pub open spec fn option_of(t: Seq<char>) -> Result<AtomView, SpecFault> {
    let name = split_first(t, '=').0;
    let long = if is_long(name) {
        Some(name)
    } else {
        None
    };
    let short = if is_long(name) {
        None
    } else {
        Some(name)
    };
    if !is_long(name) && !is_short(name) {
        Err(SpecFault::BadOption(t))
    } else {
        match split_first(t, '=').1 {
            None => Ok(AtomView::OptBool { long, short }),
            Some(v) => {
                let repeat = v.len() > 0 && v.last() == '+';
                let core = if repeat {
                    v.drop_last()
                } else {
                    v
                };
                let ty_text = split_first(core, ':').0;
                match type_of_token(ty_text) {
                    None => Err(SpecFault::UnknownType(ty_text, t)),
                    Some(ty) => Ok(
                        AtomView::OptVal {
                            long,
                            short,
                            ty,
                            default: split_first(core, ':').1,
                            allow_repeat: repeat,
                        },
                    ),
                }
            },
        }
    }
}

/// Every option that a token declares has a name, and each of its names
/// is spelled as a long or a short option should be.
pub proof fn lemma_option_names(t: Seq<char>)
    ensures
        option_of(t) matches Ok(a) ==> match a {
            AtomView::OptBool { long, short } | AtomView::OptVal { long, short, .. } => {
                &&& long is Some || short is Some
                &&& long matches Some(l) ==> is_long(l)
                &&& short matches Some(s) ==> is_short(s)
            },
            _ => false,
        },
{
}

/// The atom that one token declares.
pub open spec fn atom_of_text(t: Seq<char>) -> Result<AtomView, SpecFault> {
    if t.len() > 0 && t[0] == '<' {
        if t.last() != '>' {
            Err(SpecFault::UnterminatedPositional(t))
        } else {
            positional_of(t)
        }
    } else if is_long(t) || is_short(t) || t.contains('=') {
        option_of(t)
    } else {
        Ok(AtomView::Lit(t))
    }
}

/// The atoms of `ts` from index `i` on, or the first fault among them.
pub open spec fn atoms_from(ts: Seq<Seq<char>>, i: nat) -> Result<Seq<AtomView>, SpecFault>
    decreases ts.len() - i,
{
    if i >= ts.len() {
        Ok(Seq::empty())
    } else {
        match atom_of_text(ts[i as int]) {
            Err(e) => Err(e),
            Ok(a) => match atoms_from(ts, i + 1) {
                Err(e) => Err(e),
                Ok(rest) => Ok(seq![a] + rest),
            },
        }
    }
}

/// The item that one word of a usage line declares.
pub open spec fn item_of_text(t: Seq<char>) -> Result<ItemView, SpecFault> {
    if t.len() > 0 && t[0] == '[' && t.last() == ']' {
        match atoms_from(pieces(t.subrange(1, t.len() - 1), '|'), 0) {
            Err(e) => Err(e),
            Ok(v) => Ok(
                ItemView::Optional(
                    if v.len() == 1 {
                        GroupView::Single(v[0])
                    } else {
                        GroupView::Alt(v)
                    },
                ),
            ),
        }
    } else {
        match atom_of_text(t) {
            Err(e) => Err(e),
            Ok(a) => Ok(ItemView::Required(GroupView::Single(a))),
        }
    }
}

/// The items of the words `ws` from index `i` on, or the first fault.
pub open spec fn items_from(ws: Seq<Seq<char>>, i: nat) -> Result<Seq<ItemView>, SpecFault>
    decreases ws.len() - i,
{
    if i >= ws.len() {
        Ok(Seq::empty())
    } else {
        match item_of_text(ws[i as int]) {
            Err(e) => Err(e),
            Ok(it) => match items_from(ws, i + 1) {
                Err(e) => Err(e),
                Ok(rest) => Ok(seq![it] + rest),
            },
        }
    }
}

/// The name of a command: its first reachable literal, else `_`.
pub open spec fn command_name(items: Seq<ItemView>) -> Seq<char> {
    match first_lit(items) {
        Some(s) => s,
        None => "_"@,
    }
}

/// The command that one usage line declares.
pub open spec fn command_of_line(line: Seq<char>) -> Result<CommandView, SpecFault> {
    let ws = words(line);
    if ws.len() < 2 || ws[0] != "Usage:"@ {
        Err(SpecFault::NotUsageLine)
    } else {
        match items_from(ws, 2) {
            Err(e) => Err(e),
            Ok(items) => Ok(CommandView { name: command_name(items), items }),
        }
    }
}

/// The commands of `lines` from index `i` on, or the first fault.
pub open spec fn commands_from(lines: Seq<Seq<char>>, i: nat) -> Result<Seq<CommandView>, SpecFault>
    decreases lines.len() - i,
{
    if i >= lines.len() {
        Ok(Seq::empty())
    } else {
        match command_of_line(lines[i as int]) {
            Err(e) => Err(e),
            Ok(c) => match commands_from(lines, i + 1) {
                Err(e) => Err(e),
                Ok(rest) => Ok(seq![c] + rest),
            },
        }
    }
}

/// The specification that usage lines declare: one command per line, in
/// order, and the program name of the first line.
pub open spec fn spec_of_lines(lines: Seq<Seq<char>>) -> Result<SpecView, SpecFault> {
    if lines.len() == 0 {
        Err(SpecFault::NoLines)
    } else {
        match commands_from(lines, 0) {
            Err(e) => Err(e),
            Ok(cs) => Ok(SpecView { prog: words(lines[0])[1], commands: cs }),
        }
    }
}

/// A sequence continued by the outcome of the rest of a parse.
pub open spec fn prefixed<A, E>(done: Seq<A>, rest: Result<Seq<A>, E>) -> Result<Seq<A>, E> {
    match rest {
        Ok(r) => Ok(done + r),
        Err(e) => Err(e),
    }
}

fn text_is_long(v: &Vec<char>) -> (r: bool)
    ensures
        r == is_long(v@),
{
    v.len() >= 3 && v[0] == '-' && v[1] == '-'
}

fn text_is_short(v: &Vec<char>) -> (r: bool)
    ensures
        r == is_short(v@),
{
    v.len() == 2 && v[0] == '-' && v[1] != '-'
}

fn type_of_text(ty: &str, token: &str) -> (r: Result<Type, ParseError>)
    ensures
        match r {
            Ok(t) => type_of_token(ty@) == Some(t),
            Err(e) => type_of_token(ty@) is None && e.0@ == SpecFault::UnknownType(ty@, token@).message(),
        },
{
    match Type::from_str(ty) {
        Ok(t) => Ok(t),
        Err(m) => {
            let mut m = m;
            m.append(": ");
            m.append(token);
            Err(ParseError(m))
        },
    }
}

fn parse_pos(token: &str) -> (r: Result<Atom, ParseError>)
    requires
        token@.len() >= 2,
    ensures
        match r {
            Ok(a) => positional_of(token@) == Ok::<AtomView, SpecFault>(a@),
            Err(e) => positional_of(token@) matches Err(f) && e.0@ == f.message(),
        },
{
    let n = chars_of(token).len();
    let inside = slice_text(token, 1, n - 1);
    let parts = split_pieces(inside.as_str(), ':');
    if parts.len() == 2 || parts.len() == 3 {
        let ty = match type_of_text(parts[1].as_str(), token) {
            Ok(t) => t,
            Err(e) => return Err(e),
        };
        let default = if parts.len() == 3 {
            Some(parts[2].clone())
        } else {
            None
        };
        Ok(Atom::Pos { name: parts[0].clone(), ty, default })
    } else {
        Err(ParseError(concat_text("Bad positional: ", token)))
    }
}

fn parse_option(token: &str) -> (r: Result<Atom, ParseError>)
    ensures
        match r {
            Ok(a) => option_of(token@) == Ok::<AtomView, SpecFault>(a@),
            Err(e) => option_of(token@) matches Err(f) && e.0@ == f.message(),
        },
{
    let (name, val) = split_at_first(token, '=');
    let name_chars = chars_of(name.as_str());
    let long_name = text_is_long(&name_chars);
    if !long_name && !text_is_short(&name_chars) {
        return Err(ParseError(concat_text("Bad option: ", token)));
    }
    let (long, short) = if long_name {
        (Some(name), None)
    } else {
        (None, Some(name))
    };
    match val {
        None => Ok(Atom::OptBool { long, short }),
        Some(v) => {
            let vc = chars_of(v.as_str());
            let n = vc.len();
            let allow_repeat = n > 0 && vc[n - 1] == '+';
            let core = if allow_repeat {
                slice_text(v.as_str(), 0, n - 1)
            } else {
                v
            };
            proof {
                if allow_repeat {
                    assert(core@ =~= v@.drop_last());
                }
            }
            let (ty_text, default) = split_at_first(core.as_str(), ':');
            let ty = match type_of_text(ty_text.as_str(), token) {
                Ok(t) => t,
                Err(e) => return Err(e),
            };
            Ok(Atom::OptVal { long, short, ty, default, allow_repeat })
        },
    }
}

fn atom_of(token: &str) -> (r: Result<Atom, ParseError>)
    ensures
        match r {
            Ok(a) => atom_of_text(token@) == Ok::<AtomView, SpecFault>(a@),
            Err(e) => atom_of_text(token@) matches Err(f) && e.0@ == f.message(),
        },
{
    let v = chars_of(token);
    let n = v.len();
    if n > 0 && v[0] == '<' {
        if v[n - 1] != '>' {
            return Err(ParseError(concat_text("Unterminated positional: ", token)));
        }
        parse_pos(token)
    } else {
        let mut has_eq = false;
        for k in 0..n
            invariant
                n == v@.len(),
                has_eq == (exists|j: int| 0 <= j < k && v@[j] == '='),
        {
            if v[k] == '=' {
                has_eq = true;
            }
        }
        proof {
            if token@.contains('=') {
                let j = choose|j: int| 0 <= j < token@.len() && token@[j] == '=';
                assert(v@[j] == '=');
            }
        }
        if text_is_long(&v) || text_is_short(&v) || has_eq {
            parse_option(token)
        } else {
            Ok(Atom::Lit(token.to_owned()))
        }
    }
}

/// The atoms of the texts `ts`, or the first fault among them.
fn atoms_of_all(ts: &Vec<String>) -> (r: Result<Vec<Atom>, ParseError>)
    ensures
        match r {
            Ok(v) => atoms_from(texts(ts@), 0) == Ok::<Seq<AtomView>, SpecFault>(atoms_view(v@)),
            Err(e) => atoms_from(texts(ts@), 0) matches Err(f) && e.0@ == f.message(),
        },
{
    let ghost tv = texts(ts@);
    let mut out: Vec<Atom> = Vec::new();
    for i in 0..ts.len()
        invariant
            tv == texts(ts@),
            atoms_from(tv, 0) == prefixed(atoms_view(out@), atoms_from(tv, i as nat)),
    {
        let a = match atom_of(ts[i].as_str()) {
            Ok(a) => a,
            Err(e) => return Err(e),
        };
        let ghost before = out@;
        out.push(a);
        proof {
            assert(atoms_view(out@) =~= atoms_view(before).push(a@));
            match atoms_from(tv, (i + 1) as nat) {
                Ok(rest) => {
                    assert(atoms_view(before) + (seq![a@] + rest) =~= atoms_view(out@) + rest);
                },
                Err(_) => {},
            }
        }
    }
    proof {
        assert(atoms_view(out@) + Seq::<AtomView>::empty() =~= atoms_view(out@));
    }
    Ok(out)
}

fn parse_group_token(token: &str) -> (r: Result<Item, ParseError>)
    ensures
        match r {
            Ok(it) => item_of_text(token@) == Ok::<ItemView, SpecFault>(it@),
            Err(e) => item_of_text(token@) matches Err(f) && e.0@ == f.message(),
        },
{
    let v = chars_of(token);
    let n = v.len();
    if n > 0 && v[0] == '[' && v[n - 1] == ']' {
        let inner = slice_text(token, 1, n - 1);
        let alts = split_pieces(inner.as_str(), '|');
        let mut atoms = match atoms_of_all(&alts) {
            Ok(a) => a,
            Err(e) => return Err(e),
        };
        let group = if atoms.len() == 1 {
            let a = atoms.pop().unwrap();
            Group::Single(a)
        } else {
            Group::Alt(atoms)
        };
        Ok(Item::Optional(group))
    } else {
        let a = match atom_of(token) {
            Ok(a) => a,
            Err(e) => return Err(e),
        };
        Ok(Item::Required(Group::Single(a)))
    }
}

/// The program name and items of one usage line.
fn parse_usage_line(line: &str) -> (r: Result<(String, Vec<Item>), ParseError>)
    ensures
        match r {
            Ok((prog, items)) => command_of_line(line@) == Ok::<CommandView, SpecFault>(
                CommandView { name: command_name(items_view(items@)), items: items_view(items@) },
            ) && prog@ == words(line@)[1],
            Err(e) => command_of_line(line@) matches Err(f) && e.0@ == f.message(),
        },
{
    let ws = split_words(line);
    let ghost wv = texts(ws@);
    if ws.len() < 2 || !crate::grammar::same_text(ws[0].as_str(), "Usage:") {
        return Err(ParseError(String::from_str("Line must start with 'Usage:'")));
    }
    let mut items: Vec<Item> = Vec::new();
    for i in 2..ws.len()
        invariant
            wv == texts(ws@),
            wv == words(line@),
            wv.len() >= 2 && wv[0] == "Usage:"@,
            items_from(wv, 2) == prefixed(items_view(items@), items_from(wv, i as nat)),
    {
        let it = match parse_group_token(ws[i].as_str()) {
            Ok(it) => it,
            Err(e) => return Err(e),
        };
        let ghost before = items@;
        items.push(it);
        proof {
            assert(items_view(items@) =~= items_view(before).push(it@));
            match items_from(wv, (i + 1) as nat) {
                Ok(rest) => {
                    assert(items_view(before) + (seq![it@] + rest) =~= items_view(items@) + rest);
                },
                Err(_) => {},
            }
        }
    }
    proof {
        assert(items_view(items@) + Seq::<ItemView>::empty() =~= items_view(items@));
        assert(items_view(Seq::<Item>::empty()) =~= Seq::<ItemView>::empty());
    }
    Ok((ws[1].clone(), items))
}

/// The name of a command: the first literal reachable through its
/// required items, looking at the first member of an alternation.
pub(crate) fn first_lit_after_prog(items: &Vec<Item>) -> (r: Option<String>)
    ensures
        text_opt(r) == first_lit(items_view(items@)),
{
    let ghost iv = items_view(items@);
    let mut i: usize = 0;
    while i < items.len()
        invariant
            iv == items_view(items@),
            i <= items@.len(),
            first_lit(iv) == first_lit_from(iv, i as nat),
        decreases items@.len() - i,
    {
        match &items[i] {
            Item::Required(Group::Single(Atom::Lit(s))) => return Some(s.clone()),
            Item::Required(Group::Alt(atoms)) => {
                if atoms.len() > 0 {
                    if let Atom::Lit(s) = &atoms[0] {
                        return Some(s.clone());
                    }
                }
            },
            _ => {},
        }
        i = i + 1;
    }
    None
}

/// The specification that `lines` declare, or the first fault in them.
pub fn from_lines(lines: &[String]) -> (r: Result<Spec, ParseError>)
    ensures
        match r {
            Ok(s) => spec_of_lines(texts(lines@)) == Ok::<SpecView, SpecFault>(s@)
                && s.commands@.len() == lines@.len(),
            Err(e) => spec_of_lines(texts(lines@)) matches Err(f) && e.0@ == f.message(),
        },
{
    let ghost lv = texts(lines@);
    if lines.len() == 0 {
        return Err(ParseError(String::from_str("No usage lines")));
    }
    let mut prog = String::new();
    let mut commands: Vec<Command> = Vec::new();
    for i in 0..lines.len()
        invariant
            lv == texts(lines@),
            lines@.len() > 0,
            commands@.len() == i,
            i > 0 ==> prog@ == words(lv[0])[1],
            commands_from(lv, 0) == prefixed(commands_view(commands@), commands_from(lv, i as nat)),
    {
        let (p, items) = match parse_usage_line(lines[i].as_str()) {
            Ok(pi) => pi,
            Err(e) => return Err(e),
        };
        if i == 0 {
            prog = p;
        }
        let name = match first_lit_after_prog(&items) {
            Some(s) => s,
            None => String::from_str("_"),
        };
        let c = Command { name, items };
        let ghost before = commands@;
        commands.push(c);
        proof {
            assert(commands_view(commands@) =~= commands_view(before).push(c@));
            match commands_from(lv, (i + 1) as nat) {
                Ok(rest) => {
                    assert(commands_view(before) + (seq![c@] + rest) =~= commands_view(commands@)
                        + rest);
                },
                Err(_) => {},
            }
        }
    }
    proof {
        assert(commands_view(commands@) + Seq::<CommandView>::empty() =~= commands_view(
            commands@,
        ));
    }
    Ok(Spec { prog, commands })
}

} // verus!
