//! Matching an argument list against one command of a [`Spec`].
use vstd::prelude::*;
use vstd::string::*;
use crate::grammar::{
    Atom, AtomView, Command, CommandView, Item, ItemView, Spec, Type, commands_view, first_lit,
    group_atoms, item_group, items_atoms, items_view,
};
use crate::parser::first_lit_after_prog;
use crate::text::{
    chars_of, concat_text, is_i64_numeral, lower_of, lowercase, parse_i64, split_at_first,
    split_first, text_opt, texts,
};

verus! {

/// An argument list that does not fit the chosen command, with what was wrong.
#[derive(Debug)]
pub struct ArgError(pub String);

/// What a successful match yields.
#[derive(Debug, Clone, PartialEq, Eq)]
pub struct ParseResult {
    pub command: String,
    pub options: Vec<(String, Vec<String>)>,
    pub positionals: Vec<(String, String)>,
    pub leftovers: Vec<String>,
}

/// What can be wrong with an argument list.
pub enum ArgFault {
    UnknownOption(Seq<char>),
    MissingValue(Seq<char>),
    MissingPositional(Seq<char>),
    Unexpected(Seq<char>),
    NotInt(Seq<char>),
    NotBool(Seq<char>),
}

impl ArgFault {
    /// The message that reports this fault.
    pub open spec fn message(self) -> Seq<char> {
        match self {
            ArgFault::UnknownOption(n) => "Unknown option: "@ + n,
            ArgFault::MissingValue(n) => "Missing value for "@ + n,
            ArgFault::MissingPositional(n) => "Missing positional: "@ + n,
            ArgFault::Unexpected(a) => "Unexpected argument: "@ + a,
            ArgFault::NotInt(s) => "Expected INT, got: "@ + s,
            ArgFault::NotBool(s) => "Expected BOOL (true|false), got: "@ + s,
        }
    }
}

/// Option values gathered under their keys, in order of first appearance.
pub type OptEntries = Seq<(Seq<char>, Seq<Seq<char>>)>;

/// Positional values under their names, in order of assignment.
pub type PosEntries = Seq<(Seq<char>, Seq<char>)>;

/// The mathematical form of a [`ParseResult`].
pub struct ParseResultView {
    pub command: Seq<char>,
    pub options: OptEntries,
    pub positionals: PosEntries,
    pub leftovers: Seq<Seq<char>>,
}

pub open spec fn opt_entries(v: Seq<(String, Vec<String>)>) -> OptEntries {
    v.map_values(|e: (String, Vec<String>)| (e.0@, texts(e.1@)))
}

pub open spec fn pos_entries(v: Seq<(String, String)>) -> PosEntries {
    v.map_values(|e: (String, String)| (e.0@, e.1@))
}

impl View for ParseResult {
    type V = ParseResultView;

    open spec fn view(&self) -> ParseResultView {
        ParseResultView {
            command: self.command@,
            options: opt_entries(self.options@),
            positionals: pos_entries(self.positionals@),
            leftovers: texts(self.leftovers@),
        }
    }
}

/// What the scan of an argument list has gathered so far.
pub struct Tally {
    pub opts: OptEntries,
    pub pos: PosEntries,
    pub leftovers: Seq<Seq<char>>,
}

/// A value checked against its type: an `INT` must be an `i64` numeral and
/// stays as written; a `BOOL` must be `true` or `false` in any case and
/// becomes lowercase; `STR` and `PATH` take any text.
pub open spec fn coerce(ty: Type, s: Seq<char>) -> Result<Seq<char>, ArgFault> {
    match ty {
        Type::Int => if is_i64_numeral(s) {
            Ok(s)
        } else {
            Err(ArgFault::NotInt(s))
        },
        Type::Bool => if lower_of(s) == "true"@ || lower_of(s) == "false"@ {
            Ok(lower_of(s))
        } else {
            Err(ArgFault::NotBool(s))
        },
        Type::Str => Ok(s),
        Type::Path => Ok(s),
    }
}

/// The long and short names of an option atom.
pub open spec fn option_names(a: AtomView) -> (Option<Seq<char>>, Option<Seq<char>>) {
    match a {
        AtomView::OptBool { long, short } => (long, short),
        AtomView::OptVal { long, short, .. } => (long, short),
        _ => (None, None),
    }
}

/// Whether `a` is an option spelled `name`.
pub open spec fn option_named(a: AtomView, name: Seq<char>) -> bool {
    (a is OptBool || a is OptVal) && (option_names(a).0 == Some(name) || option_names(a).1
        == Some(name))
}

/// The key under which an option's values are reported: its long name if
/// it has one, else its short name.
pub open spec fn option_key(a: AtomView) -> Seq<char> {
    match option_names(a).0 {
        Some(l) => l,
        None => match option_names(a).1 {
            Some(s) => s,
            None => Seq::empty(),
        },
    }
}

/// The first option atom spelled `name`, from index `i` on.
pub open spec fn option_from(atoms: Seq<AtomView>, name: Seq<char>, i: nat) -> Option<nat>
    decreases atoms.len() - i,
{
    if i >= atoms.len() {
        None
    } else if option_named(atoms[i as int], name) {
        Some(i)
    } else {
        option_from(atoms, name, i + 1)
    }
}

/// Whether `t` is one of the literals of the command.
pub open spec fn literal_of(atoms: Seq<AtomView>, t: Seq<char>) -> bool {
    exists|k: int| 0 <= k < atoms.len() && atoms[k] == AtomView::Lit(t)
}

/// The positional atoms, in declaration order.
pub open spec fn positional_decls(atoms: Seq<AtomView>) -> Seq<AtomView>
    decreases atoms.len(),
{
    if atoms.len() == 0 {
        Seq::empty()
    } else {
        positional_decls(atoms.drop_last()) + if atoms.last() is Pos {
            seq![atoms.last()]
        } else {
            Seq::empty()
        }
    }
}

/// The name, type and default of a positional atom.
pub open spec fn pos_parts(a: AtomView) -> (Seq<char>, Type, Option<Seq<char>>) {
    match a {
        AtomView::Pos { name, ty, default } => (name, ty, default),
        _ => (Seq::empty(), Type::Str, None),
    }
}

/// Whether an entry is recorded under `k`.
pub open spec fn has_key<V>(entries: Seq<(Seq<char>, V)>, k: Seq<char>) -> bool {
    exists|m: int| 0 <= m < entries.len() && entries[m].0 == k
}

/// The first entry under `k`, from index `i` on.
pub open spec fn key_from<V>(entries: Seq<(Seq<char>, V)>, k: Seq<char>, i: nat) -> Option<nat>
    decreases entries.len() - i,
{
    if i >= entries.len() {
        None
    } else if entries[i as int].0 == k {
        Some(i)
    } else {
        key_from(entries, k, i + 1)
    }
}

proof fn lemma_key_from<V>(entries: Seq<(Seq<char>, V)>, k: Seq<char>, i: nat)
    ensures
        key_from(entries, k, i) matches Some(j) ==> i <= j < entries.len() && entries[j as int].0
            == k,
    decreases entries.len() - i,
{
    if i < entries.len() && entries[i as int].0 != k {
        lemma_key_from(entries, k, i + 1);
    }
}

/// `v` appended to the values under `k`, or a new entry for `k` at the end.
pub open spec fn add_value(opts: OptEntries, k: Seq<char>, v: Seq<char>) -> OptEntries {
    match key_from(opts, k, 0) {
        Some(j) => opts.update(j as int, (k, opts[j as int].1.push(v))),
        None => opts.push((k, seq![v])),
    }
}

/// The values of the positionals `decls` from index `j` on, after `--`:
/// each takes the next token of `rest`, else its default, else the match fails.
pub open spec fn fill_rest(decls: Seq<AtomView>, rest: Seq<Seq<char>>, j: nat, pos: PosEntries) -> Result<PosEntries, ArgFault>
    decreases decls.len() - j,
{
    if j >= decls.len() {
        Ok(pos)
    } else {
        let (name, ty, default) = pos_parts(decls[j as int]);
        if j < rest.len() {
            match coerce(ty, rest[j as int]) {
                Err(e) => Err(e),
                Ok(x) => fill_rest(decls, rest, j + 1, pos.push((name, x))),
            }
        } else {
            match default {
                Some(d) => match coerce(ty, d) {
                    Err(e) => Err(e),
                    Ok(x) => fill_rest(decls, rest, j + 1, pos.push((name, x))),
                },
                None => Err(ArgFault::MissingPositional(name)),
            }
        }
    }
}

pub open spec fn min(a: int, b: int) -> int {
    if a <= b {
        a
    } else {
        b
    }
}

/// The scan of `argv` from index `i` on, given what has been gathered.
pub open spec fn scan_from(atoms: Seq<AtomView>, argv: Seq<Seq<char>>, i: nat, t: Tally) -> Result<Tally, ArgFault>
    decreases argv.len() - i,
{
    if i >= argv.len() {
        Ok(t)
    } else {
        let arg = argv[i as int];
        let decls = positional_decls(atoms);
        if arg == "--"@ {
            let remaining = decls.skip(t.pos.len() as int);
            let rest = argv.skip(i + 1 as int);
            match fill_rest(remaining, rest, 0, t.pos) {
                Err(e) => Err(e),
                Ok(p) => Ok(
                    Tally {
                        opts: t.opts,
                        pos: p,
                        leftovers: rest.skip(min(remaining.len() as int, rest.len() as int)),
                    },
                ),
            }
        } else if arg.len() > 0 && arg[0] == '-' {
            let name = split_first(arg, '=').0;
            match option_from(atoms, name, 0) {
                None => Err(ArgFault::UnknownOption(name)),
                Some(j) => {
                    let key = option_key(atoms[j as int]);
                    match atoms[j as int] {
                        AtomView::OptVal { ty, .. } => match split_first(arg, '=').1 {
                            Some(v) => match coerce(ty, v) {
                                Err(e) => Err(e),
                                Ok(x) => scan_from(
                                    atoms,
                                    argv,
                                    i + 1,
                                    Tally {
                                        opts: add_value(t.opts, key, x),
                                        pos: t.pos,
                                        leftovers: t.leftovers,
                                    },
                                ),
                            },
                            None => if i + 1 < argv.len() {
                                match coerce(ty, argv[i + 1 as int]) {
                                    Err(e) => Err(e),
                                    Ok(x) => scan_from(
                                        atoms,
                                        argv,
                                        i + 2,
                                        Tally {
                                            opts: add_value(t.opts, key, x),
                                            pos: t.pos,
                                            leftovers: t.leftovers,
                                        },
                                    ),
                                }
                            } else {
                                Err(ArgFault::MissingValue(name))
                            },
                        },
                        _ => scan_from(
                            atoms,
                            argv,
                            i + 1,
                            Tally {
                                opts: add_value(t.opts, key, "true"@),
                                pos: t.pos,
                                leftovers: t.leftovers,
                            },
                        ),
                    }
                },
            }
        } else if literal_of(atoms, arg) {
            scan_from(atoms, argv, i + 1, t)
        } else if t.pos.len() >= decls.len() {
            Err(ArgFault::Unexpected(arg))
        } else {
            let (name, ty, _) = pos_parts(decls[t.pos.len() as int]);
            match coerce(ty, arg) {
                Err(e) => Err(e),
                Ok(x) => scan_from(
                    atoms,
                    argv,
                    i + 1,
                    Tally { opts: t.opts, pos: t.pos.push((name, x)), leftovers: t.leftovers },
                ),
            }
        }
    }
}

/// The options after defaulting the atoms from index `j` on: a flag never
/// seen reads `false`, a value option never seen takes its default if it
/// has one.
pub open spec fn option_defaults_from(atoms: Seq<AtomView>, j: nat, opts: OptEntries) -> Result<OptEntries, ArgFault>
    decreases atoms.len() - j,
{
    if j >= atoms.len() {
        Ok(opts)
    } else {
        let a = atoms[j as int];
        let key = option_key(a);
        match a {
            AtomView::OptVal { ty, default, .. } => if has_key(opts, key) || default is None {
                option_defaults_from(atoms, j + 1, opts)
            } else {
                match coerce(ty, default->0) {
                    Err(e) => Err(e),
                    Ok(x) => option_defaults_from(atoms, j + 1, opts.push((key, seq![x]))),
                }
            },
            AtomView::OptBool { .. } => if has_key(opts, key) {
                option_defaults_from(atoms, j + 1, opts)
            } else {
                option_defaults_from(atoms, j + 1, opts.push((key, seq!["false"@])))
            },
            _ => option_defaults_from(atoms, j + 1, opts),
        }
    }
}

/// The positionals after defaulting the declarations from index `j` on:
/// one never given takes its default, and without one the match fails.
pub open spec fn positional_defaults_from(decls: Seq<AtomView>, j: nat, pos: PosEntries) -> Result<PosEntries, ArgFault>
    decreases decls.len() - j,
{
    if j >= decls.len() {
        Ok(pos)
    } else {
        let (name, ty, default) = pos_parts(decls[j as int]);
        if has_key(pos, name) {
            positional_defaults_from(decls, j + 1, pos)
        } else {
            match default {
                Some(d) => match coerce(ty, d) {
                    Err(e) => Err(e),
                    Ok(x) => positional_defaults_from(decls, j + 1, pos.push((name, x))),
                },
                None => Err(ArgFault::MissingPositional(name)),
            }
        }
    }
}

pub open spec fn empty_tally() -> Tally {
    Tally { opts: Seq::empty(), pos: Seq::empty(), leftovers: Seq::empty() }
}

/// The outcome of matching `argv` against `cmd`: the scan, then the
/// defaults of the options, then those of the positionals.
pub open spec fn match_command(cmd: CommandView, argv: Seq<Seq<char>>) -> Result<ParseResultView, ArgFault> {
    let atoms = items_atoms(cmd.items);
    match scan_from(atoms, argv, 0, empty_tally()) {
        Err(e) => Err(e),
        Ok(t) => match option_defaults_from(atoms, 0, t.opts) {
            Err(e) => Err(e),
            Ok(o) => match positional_defaults_from(positional_decls(atoms), 0, t.pos) {
                Err(e) => Err(e),
                Ok(p) => Ok(
                    ParseResultView {
                        command: cmd.name,
                        options: o,
                        positionals: p,
                        leftovers: t.leftovers,
                    },
                ),
            },
        },
    }
}

/// The first command, from index `i` on, whose first literal is `w`.
pub open spec fn command_from(cmds: Seq<CommandView>, w: Seq<char>, i: nat) -> Option<nat>
    decreases cmds.len() - i,
{
    if i >= cmds.len() {
        None
    } else if first_lit(cmds[i as int].items) == Some(w) {
        Some(i)
    } else {
        command_from(cmds, w, i + 1)
    }
}

/// The command chosen for `argv`: the first whose first literal is the
/// first token, else the first command.
pub open spec fn chosen(cmds: Seq<CommandView>, argv: Seq<Seq<char>>) -> nat {
    if argv.len() == 0 {
        0
    } else {
        match command_from(cmds, argv[0], 0) {
            Some(k) => k,
            None => 0,
        }
    }
}


pub open spec fn refs_view(v: Seq<&Atom>) -> Seq<AtomView> {
    v.map_values(|a: &Atom| a@)
}

/// A positional declaration as the matcher reads it: name, type, default.
pub type PosDecl<'a> = (&'a String, Type, &'a Option<String>);

pub open spec fn decl_view(d: PosDecl) -> (Seq<char>, Type, Option<Seq<char>>) {
    (d.0@, d.1, text_opt(*d.2))
}

/// Accepts a lowercased text as a boolean when it reads `true` or `false`;
/// `text` is what was given, and names the value in the error.
pub fn bool_word(lower: String, text: &str) -> (r: Result<String, ArgError>)
    ensures
        match r {
            Ok(w) => (lower@ == "true"@ || lower@ == "false"@) && w@ == lower@,
            Err(e) => !(lower@ == "true"@ || lower@ == "false"@) && e.0@
                == ArgFault::NotBool(text@).message(),
        },
{
    if crate::grammar::same_text(lower.as_str(), "true") || crate::grammar::same_text(
        lower.as_str(),
        "false",
    ) {
        Ok(lower)
    } else {
        Err(ArgError(concat_text("Expected BOOL (true|false), got: ", text)))
    }
}

/// The value `s` checked against `ty`.
fn parse_val(ty: Type, s: &str) -> (r: Result<String, ArgError>)
    ensures
        match r {
            Ok(v) => coerce(ty, s@) == Ok::<Seq<char>, ArgFault>(v@),
            Err(e) => coerce(ty, s@) matches Err(f) && e.0@ == f.message(),
        },
{
    match ty {
        Type::Int => match parse_i64(s) {
            Some(_) => Ok(s.to_owned()),
            None => Err(ArgError(concat_text("Expected INT, got: ", s))),
        },
        Type::Bool => bool_word(lowercase(s), s),
        Type::Str => Ok(s.to_owned()),
        Type::Path => Ok(s.to_owned()),
    }
}

/// The index of the first option entry under `key`.
fn key_index(entries: &Vec<(String, Vec<String>)>, key: &String) -> (r: Option<usize>)
    ensures
        match r {
            Some(j) => key_from(opt_entries(entries@), key@, 0) == Some(j as nat) && j
                < entries@.len(),
            None => key_from(opt_entries(entries@), key@, 0) is None,
        },
{
    let ghost ev = opt_entries(entries@);
    let mut i: usize = 0;
    while i < entries.len()
        invariant
            ev == opt_entries(entries@),
            i <= entries@.len(),
            key_from(ev, key@, 0) == key_from(ev, key@, i as nat),
        decreases entries@.len() - i,
    {
        if entries[i].0 == *key {
            assert(ev[i as int].0 == key@);
            return Some(i);
        }
        i = i + 1;
    }
    None
}

/// Appends `val` to the values under `key`, or adds an entry for it.
fn add_opt(opts_map: &mut Vec<(String, Vec<String>)>, key: &String, val: String)
    ensures
        opt_entries(final(opts_map)@) == add_value(opt_entries(old(opts_map)@), key@, val@),
{
    let ghost before = opt_entries(opts_map@);
    match key_index(opts_map, key) {
        Some(i) => {
            proof {
                lemma_key_from(before, key@, 0);
            }
            let mut entry = opts_map.remove(i);
            let ghost vals = entry.1@;
            entry.1.push(val);
            opts_map.insert(i, entry);
            proof {
                assert(texts(entry.1@) =~= texts(vals).push(val@));
                assert(opt_entries(opts_map@) =~= before.update(
                    i as int,
                    (key@, before[i as int].1.push(val@)),
                ));
            }
        },
        None => {
            let mut vals: Vec<String> = Vec::new();
            vals.push(val);
            opts_map.push((key.clone(), vals));
            proof {
                assert(texts(vals@) =~= seq![val@]);
                assert(opt_entries(opts_map@) =~= before.push((key@, seq![val@])));
            }
        },
    }
}

/// Whether an option entry is recorded under `key`.
fn has_opt(entries: &Vec<(String, Vec<String>)>, key: &String) -> (r: bool)
    ensures
        r == has_key(opt_entries(entries@), key@),
{
    let ghost ev = opt_entries(entries@);
    for m in 0..entries.len()
        invariant
            ev == opt_entries(entries@),
            forall|q: int| 0 <= q < m ==> ev[q].0 != key@,
    {
        if entries[m].0 == *key {
            assert(ev[m as int].0 == key@);
            return true;
        }
    }
    false
}

/// Whether a positional entry is recorded under `key`.
fn has_pos(entries: &Vec<(String, String)>, key: &String) -> (r: bool)
    ensures
        r == has_key(pos_entries(entries@), key@),
{
    let ghost ev = pos_entries(entries@);
    for m in 0..entries.len()
        invariant
            ev == pos_entries(entries@),
            forall|q: int| 0 <= q < m ==> ev[q].0 != key@,
    {
        if entries[m].0 == *key {
            assert(ev[m as int].0 == key@);
            return true;
        }
    }
    false
}

/// Every atom of the items, in declaration order.
pub(crate) fn collect_atoms(items: &Vec<Item>) -> (r: Vec<&Atom>)
    ensures
        refs_view(r@) == items_atoms(items_view(items@)),
{
    let ghost iv = items_view(items@);
    let mut r: Vec<&Atom> = Vec::new();
    proof {
        assert(iv.take(0) =~= Seq::<ItemView>::empty());
        assert(refs_view(r@) =~= Seq::<AtomView>::empty());
    }
    for i in 0..items.len()
        invariant
            iv == items_view(items@),
            refs_view(r@) == items_atoms(iv.take(i as int)),
    {
        let g = match &items[i] {
            Item::Required(g) => g,
            Item::Optional(g) => g,
        };
        let ga = g.atoms();
        let ghost base = refs_view(r@);
        proof {
            assert(base + group_atoms(g@).take(0) =~= base);
        }
        for k in 0..ga.len()
            invariant
                ga@.len() == group_atoms(g@).len(),
                forall|q: int| 0 <= q < ga@.len() ==> ga@[q]@ == #[trigger] group_atoms(g@)[q],
                refs_view(r@) == base + group_atoms(g@).take(k as int),
        {
            let ghost prev = r@;
            r.push(ga[k]);
            proof {
                assert(refs_view(r@) =~= refs_view(prev).push(ga@[k as int]@));
                assert(base + group_atoms(g@).take(k + 1) =~= (base + group_atoms(g@).take(
                    k as int,
                )).push(group_atoms(g@)[k as int]));
            }
        }
        proof {
            assert(group_atoms(g@).take(ga@.len() as int) =~= group_atoms(g@));
            assert(iv.take(i + 1).drop_last() =~= iv.take(i as int));
            assert(item_group(iv[i as int]) == g@);
        }
    }
    proof {
        assert(iv.take(items@.len() as int) =~= iv);
    }
    r
}

/// The positional declarations among `atoms`, in order.
fn positional_list<'a>(atoms: &Vec<&'a Atom>) -> (r: Vec<PosDecl<'a>>)
    ensures
        r@.len() == positional_decls(refs_view(atoms@)).len(),
        forall|k: int|
            0 <= k < r@.len() ==> decl_view(#[trigger] r@[k]) == pos_parts(
                positional_decls(refs_view(atoms@))[k],
            ),
{
    let ghost av = refs_view(atoms@);
    let mut r: Vec<PosDecl<'a>> = Vec::new();
    proof {
        assert(av.take(0) =~= Seq::<AtomView>::empty());
    }
    for i in 0..atoms.len()
        invariant
            av == refs_view(atoms@),
            r@.len() == positional_decls(av.take(i as int)).len(),
            forall|k: int|
                0 <= k < r@.len() ==> decl_view(#[trigger] r@[k]) == pos_parts(
                    positional_decls(av.take(i as int))[k],
                ),
    {
        proof {
            assert(av.take(i + 1).drop_last() =~= av.take(i as int));
            assert(av.take(i + 1).last() == av[i as int]);
        }
        match atoms[i] {
            Atom::Pos { name, ty, default } => {
                r.push((name, *ty, default));
            },
            _ => {},
        }
        proof {
            let p = positional_decls(av.take(i as int));
            let q = positional_decls(av.take(i + 1));
            if av[i as int] is Pos {
                assert(q =~= p.push(av[i as int]));
            } else {
                assert(q =~= p);
            }
        }
    }
    proof {
        assert(av.take(atoms@.len() as int) =~= av);
    }
    r
}

/// The first option atom spelled `name`.
fn find_option(atoms: &Vec<&Atom>, name: &String) -> (r: Option<usize>)
    ensures
        match r {
            Some(j) => option_from(refs_view(atoms@), name@, 0) == Some(j as nat) && j
                < atoms@.len(),
            None => option_from(refs_view(atoms@), name@, 0) is None,
        },
{
    let ghost av = refs_view(atoms@);
    let mut i: usize = 0;
    while i < atoms.len()
        invariant
            av == refs_view(atoms@),
            i <= atoms@.len(),
            option_from(av, name@, 0) == option_from(av, name@, i as nat),
        decreases atoms@.len() - i,
    {
        let hit = match atoms[i] {
            Atom::OptBool { long, short } => spelled(long, short, name),
            Atom::OptVal { long, short, .. } => spelled(long, short, name),
            _ => false,
        };
        if hit {
            return Some(i);
        }
        i = i + 1;
    }
    None
}

fn spelled(long: &Option<String>, short: &Option<String>, name: &String) -> (r: bool)
    ensures
        r == (text_opt(*long) == Some(name@) || text_opt(*short) == Some(name@)),
{
    let l = match long {
        Some(l) => *l == *name,
        None => false,
    };
    let s = match short {
        Some(s) => *s == *name,
        None => false,
    };
    l || s
}

/// The key of an option atom: its long name if any, else its short name.
fn key_of(a: &Atom) -> (r: String)
    ensures
        r@ == option_key(a@),
{
    let (long, short) = match a {
        Atom::OptBool { long, short } => (long, short),
        Atom::OptVal { long, short, .. } => (long, short),
        _ => return String::new(),
    };
    match long {
        Some(l) => l.clone(),
        None => match short {
            Some(s) => s.clone(),
            None => String::new(),
        },
    }
}

/// Whether `arg` is one of the literals among `atoms`.
fn is_literal(atoms: &Vec<&Atom>, arg: &String) -> (r: bool)
    ensures
        r == literal_of(refs_view(atoms@), arg@),
{
    let ghost av = refs_view(atoms@);
    for k in 0..atoms.len()
        invariant
            av == refs_view(atoms@),
            forall|q: int| 0 <= q < k ==> av[q] != AtomView::Lit(arg@),
    {
        match atoms[k] {
            Atom::Lit(s) => {
                if *s == *arg {
                    assert(av[k as int] == AtomView::Lit(arg@));
                    return true;
                }
            },
            _ => {},
        }
    }
    false
}

fn starts_with_dash(s: &String) -> (r: bool)
    ensures
        r == (s@.len() > 0 && s@[0] == '-'),
{
    let v = chars_of(s.as_str());
    v.len() > 0 && v[0] == '-'
}

/// The command that `argv` selects: the first whose first literal equals
/// the first token, else the first command.
pub fn choose_command<'a>(spec: &'a Spec, argv: &[String]) -> (r: &'a Command)
    requires
        spec.commands@.len() > 0,
    ensures
        chosen(spec@.commands, texts(argv@)) < spec.commands@.len(),
        r@ == spec@.commands[chosen(spec@.commands, texts(argv@)) as int],
{
    let ghost cv = spec@.commands;
    if argv.len() == 0 {
        return &spec.commands[0];
    }
    let first_arg = &argv[0];
    let mut i: usize = 0;
    while i < spec.commands.len()
        invariant
            cv == commands_view(spec.commands@),
            i <= spec.commands@.len(),
            argv@.len() > 0,
            *first_arg == argv@[0],
            command_from(cv, texts(argv@)[0], 0) == command_from(cv, texts(argv@)[0], i as nat),
        decreases spec.commands@.len() - i,
    {
        let cmd = &spec.commands[i];
        match first_lit_after_prog(&cmd.items) {
            Some(lit) => {
                if lit == *first_arg {
                    return cmd;
                }
            },
            None => {},
        }
        i = i + 1;
    }
    &spec.commands[0]
}


pub open spec fn tally_of(
    opts: Seq<(String, Vec<String>)>,
    pos: Seq<(String, String)>,
    leftovers: Seq<String>,
) -> Tally {
    Tally { opts: opt_entries(opts), pos: pos_entries(pos), leftovers: texts(leftovers) }
}

/// Matches `argv` against `cmd`: options, literals and positionals in one
/// scan, `--` handing the rest to the positionals and the leftovers, then
/// the defaults of whatever was not given.
pub fn parse_with(cmd: &Command, argv: &[String]) -> (r: Result<ParseResult, ArgError>)
    ensures
        match r {
            Ok(res) => match_command(cmd@, texts(argv@)) == Ok::<ParseResultView, ArgFault>(res@),
            Err(e) => match_command(cmd@, texts(argv@)) matches Err(f) && e.0@ == f.message(),
        },
{
    let atoms = collect_atoms(&cmd.items);
    let decls = positional_list(&atoms);
    let ghost av = refs_view(atoms@);
    let ghost dv = positional_decls(av);
    let ghost args = texts(argv@);
    let mut opts_map: Vec<(String, Vec<String>)> = Vec::new();
    let mut pos_map: Vec<(String, String)> = Vec::new();
    let mut leftovers: Vec<String> = Vec::new();
    proof {
        assert(opt_entries(opts_map@) =~= Seq::empty());
        assert(pos_entries(pos_map@) =~= Seq::empty());
        assert(texts(leftovers@) =~= Seq::empty());
        assert(tally_of(opts_map@, pos_map@, leftovers@) == empty_tally());
    }
    let ghost scan0 = scan_from(av, args, 0, empty_tally());
    let n = argv.len();
    let mut i: usize = 0;
    while i < n
        invariant
            n == argv@.len(),
            args == texts(argv@),
            av == refs_view(atoms@),
            av == items_atoms(cmd@.items),
            dv == positional_decls(av),
            scan0 == scan_from(av, args, 0, empty_tally()),
            decls@.len() == dv.len(),
            forall|k: int| 0 <= k < decls@.len() ==> decl_view(#[trigger] decls@[k]) == pos_parts(dv[k]),
            i <= n,
            pos_map@.len() <= decls@.len(),
            i < n ==> leftovers@.len() == 0,
            scan0 == scan_from(av, args, i as nat, tally_of(opts_map@, pos_map@, leftovers@)),
        decreases n - i,
    {
        let arg = &argv[i];
        let ghost t = tally_of(opts_map@, pos_map@, leftovers@);
        if crate::grammar::same_text(arg.as_str(), "--") {
            let seen = pos_map.len();
            let rest_start = i + 1;
            let ghost remaining = dv.skip(seen as int);
            let ghost rest = args.skip(rest_start as int);
            let ghost pos0 = pos_entries(pos_map@);
            let ghost fill0 = fill_rest(remaining, rest, 0, pos0);
            let ghost m = min(remaining.len() as int, rest.len() as int);
            assert(scan0 == match fill0 {
                Err(e) => Err(e),
                Ok(p) => Ok(Tally { opts: t.opts, pos: p, leftovers: rest.skip(m) }),
            });
            let mut j: usize = 0;
            while j < decls.len() - seen
                invariant
                    n == argv@.len(),
                    args == texts(argv@),
                    decls@.len() == dv.len(),
                    forall|k: int| 0 <= k < decls@.len() ==> decl_view(#[trigger] decls@[k]) == pos_parts(dv[k]),
                    seen <= decls@.len(),
                    rest_start <= n,
                    remaining == dv.skip(seen as int),
                    rest == args.skip(rest_start as int),
                    j <= decls@.len() - seen,
                    pos_map@.len() == seen + j,
                    fill0 == fill_rest(remaining, rest, 0, pos0),
                    fill0 == fill_rest(remaining, rest, j as nat, pos_entries(pos_map@)),
                    scan0 == match fill0 {
                        Err(e) => Err(e),
                        Ok(p) => Ok(Tally { opts: t.opts, pos: p, leftovers: rest.skip(m) }),
                    },
                    scan0 == scan_from(av, args, 0, empty_tally()),
                    av == items_atoms(cmd@.items),
                decreases decls@.len() - seen - j,
            {
                let (name, ty, default) = decls[seen + j];
                assert(remaining[j as int] == dv[seen + j]);
                let ghost before = pos_map@;
                if j < n - rest_start {
                    let v = match parse_val(ty, argv[rest_start + j].as_str()) {
                        Ok(v) => v,
                        Err(e) => return Err(e),
                    };
                    pos_map.push((name.clone(), v));
                } else {
                    match default {
                        Some(d) => {
                            let v = match parse_val(ty, d.as_str()) {
                                Ok(v) => v,
                                Err(e) => return Err(e),
                            };
                            pos_map.push((name.clone(), v));
                        },
                        None => return Err(ArgError(concat_text("Missing positional: ", name.as_str()))),
                    }
                }
                proof {
                    assert(pos_entries(pos_map@) =~= pos_entries(before).push((pos_map@.last().0@, pos_map@.last().1@)));
                }
                j = j + 1;
            }
            let skip = if decls.len() - seen < n - rest_start {
                rest_start + (decls.len() - seen)
            } else {
                n
            };
            proof {
                assert(texts(leftovers@) =~= args.subrange(skip as int, skip as int));
            }
            for k in skip..n
                invariant
                    n == argv@.len(),
                    args == texts(argv@),
                    skip <= n,
                    texts(leftovers@) == args.subrange(skip as int, k as int),
            {
                let ghost before = leftovers@;
                leftovers.push(argv[k].clone());
                proof {
                    assert(texts(leftovers@) =~= texts(before).push(args[k as int]));
                    assert(args.subrange(skip as int, k + 1) =~= args.subrange(skip as int, k as int).push(args[k as int]));
                }
            }
            proof {
                assert(rest.skip(m) =~= args.subrange(skip as int, n as int));
            }
            i = n;
        } else if starts_with_dash(arg) {
            let (name, inline) = split_at_first(arg.as_str(), '=');
            let j = match find_option(&atoms, &name) {
                Some(j) => j,
                None => return Err(ArgError(concat_text("Unknown option: ", name.as_str()))),
            };
            let a: &Atom = atoms[j];
            let key = key_of(a);
            match a {
                Atom::OptVal { ty, .. } => {
                    match inline {
                        Some(v) => {
                            let x = match parse_val(*ty, v.as_str()) {
                                Ok(x) => x,
                                Err(e) => return Err(e),
                            };
                            add_opt(&mut opts_map, &key, x);
                            i = i + 1;
                        },
                        None => {
                            if i + 1 < n {
                                let x = match parse_val(*ty, argv[i + 1].as_str()) {
                                    Ok(x) => x,
                                    Err(e) => return Err(e),
                                };
                                add_opt(&mut opts_map, &key, x);
                                i = i + 2;
                            } else {
                                return Err(ArgError(concat_text("Missing value for ", name.as_str())));
                            }
                        },
                    }
                },
                _ => {
                    add_opt(&mut opts_map, &key, String::from_str("true"));
                    i = i + 1;
                },
            }
        } else if is_literal(&atoms, arg) {
            i = i + 1;
        } else {
            if pos_map.len() >= decls.len() {
                return Err(ArgError(concat_text("Unexpected argument: ", arg.as_str())));
            }
            let (name, ty, _) = decls[pos_map.len()];
            let x = match parse_val(ty, arg.as_str()) {
                Ok(x) => x,
                Err(e) => return Err(e),
            };
            let ghost before = pos_map@;
            pos_map.push((name.clone(), x));
            proof {
                assert(pos_entries(pos_map@) =~= pos_entries(before).push((name@, x@)));
            }
            i = i + 1;
        }
    }
    let ghost o0 = opt_entries(opts_map@);
    let ghost t0 = tally_of(opts_map@, pos_map@, leftovers@);
    for j in 0..atoms.len()
        invariant
            av == refs_view(atoms@),
            av == items_atoms(cmd@.items),
            dv == positional_decls(av),
            scan0 == scan_from(av, args, 0, empty_tally()),
            scan0 == Ok::<Tally, ArgFault>(t0),
            args == texts(argv@),
            t0.opts == o0,
            t0.pos == pos_entries(pos_map@),
            t0.leftovers == texts(leftovers@),
            option_defaults_from(av, 0, o0) == option_defaults_from(av, j as nat, opt_entries(opts_map@)),
    {
        let a: &Atom = atoms[j];
        let ghost before = opts_map@;
        match a {
            Atom::OptVal { ty, default, .. } => {
                let key = key_of(a);
                if !has_opt(&opts_map, &key) {
                    match default {
                        Some(d) => {
                            let x = match parse_val(*ty, d.as_str()) {
                                Ok(x) => x,
                                Err(e) => return Err(e),
                            };
                            let mut vals: Vec<String> = Vec::new();
                            vals.push(x);
                            opts_map.push((key, vals));
                            proof {
                                assert(texts(vals@) =~= seq![x@]);
                                assert(opt_entries(opts_map@) =~= opt_entries(before).push((key@, seq![x@])));
                            }
                        },
                        None => {},
                    }
                }
            },
            Atom::OptBool { .. } => {
                let key = key_of(a);
                if !has_opt(&opts_map, &key) {
                    let f = String::from_str("false");
                    let mut vals: Vec<String> = Vec::new();
                    vals.push(f);
                    opts_map.push((key, vals));
                    proof {
                        assert(texts(vals@) =~= seq![f@]);
                        assert(opt_entries(opts_map@) =~= opt_entries(before).push((key@, seq![f@])));
                    }
                }
            },
            _ => {},
        }
    }
    let ghost p0 = pos_entries(pos_map@);
    let ghost o1 = opt_entries(opts_map@);
    for j in 0..decls.len()
        invariant
            av == items_atoms(cmd@.items),
            dv == positional_decls(av),
            scan0 == scan_from(av, args, 0, empty_tally()),
            scan0 == Ok::<Tally, ArgFault>(t0),
            args == texts(argv@),
            t0.pos == p0,
            t0.leftovers == texts(leftovers@),
            option_defaults_from(av, 0, t0.opts) == Ok::<OptEntries, ArgFault>(o1),
            o1 == opt_entries(opts_map@),
            decls@.len() == dv.len(),
            forall|k: int| 0 <= k < decls@.len() ==> decl_view(#[trigger] decls@[k]) == pos_parts(dv[k]),
            positional_defaults_from(dv, 0, p0) == positional_defaults_from(dv, j as nat, pos_entries(pos_map@)),
    {
        let (name, ty, default) = decls[j];
        assert(decl_view(decls@[j as int]) == pos_parts(dv[j as int]));
        if !has_pos(&pos_map, name) {
            match default {
                Some(d) => {
                    let x = match parse_val(ty, d.as_str()) {
                        Ok(x) => x,
                        Err(e) => return Err(e),
                    };
                    let ghost before = pos_map@;
                    pos_map.push((name.clone(), x));
                    proof {
                        assert(pos_entries(pos_map@) =~= pos_entries(before).push((name@, x@)));
                    }
                },
                None => return Err(ArgError(concat_text("Missing positional: ", name.as_str()))),
            }
        }
    }
    Ok(ParseResult {
        command: cmd.name.clone(),
        options: opts_map,
        positionals: pos_map,
        leftovers,
    })
}


/// The values recorded under `k`, none if there is no entry for it.
pub open spec fn values_of(opts: OptEntries, k: Seq<char>) -> Seq<Seq<char>> {
    match key_from(opts, k, 0) {
        Some(j) => opts[j as int].1,
        None => Seq::empty(),
    }
}

proof fn lemma_key_from_same_keys<V>(
    e1: Seq<(Seq<char>, V)>,
    e2: Seq<(Seq<char>, V)>,
    k: Seq<char>,
    i: nat,
)
    requires
        e1.len() == e2.len(),
        forall|m: int| 0 <= m < e1.len() ==> #[trigger] e1[m].0 == e2[m].0,
    ensures
        key_from(e1, k, i) == key_from(e2, k, i),
    decreases e1.len() - i,
{
    if i < e1.len() {
        lemma_key_from_same_keys(e1, e2, k, i + 1);
    }
}

proof fn lemma_key_from_push<V>(e: Seq<(Seq<char>, V)>, x: (Seq<char>, V), k: Seq<char>, i: nat)
    requires
        key_from(e, k, i) is None,
        i <= e.len(),
    ensures
        key_from(e.push(x), k, i) == if x.0 == k {
            Some(e.len())
        } else {
            None
        },
    decreases e.len() - i,
{
    if i < e.len() {
        assert(e.push(x)[i as int] == e[i as int]);
        lemma_key_from_push(e, x, k, i + 1);
    } else {
        assert(e.push(x)[i as int] == x);
        assert(key_from(e.push(x), k, i + 1) is None);
    }
}

proof fn lemma_key_from_extend<V>(e: Seq<(Seq<char>, V)>, f: Seq<(Seq<char>, V)>, k: Seq<char>, i: nat)
    requires
        key_from(e, k, i) is Some,
    ensures
        key_from(e + f, k, i) == key_from(e, k, i),
    decreases e.len() - i,
{
    if i < e.len() && e[i as int].0 != k {
        lemma_key_from_extend(e, f, k, i + 1);
    }
}

/// Recording `a` and then `b` under one key keeps both, in that order,
/// after whatever was recorded there before: nothing is merged or dropped.
pub proof fn lemma_values_accumulate(opts: OptEntries, k: Seq<char>, a: Seq<char>, b: Seq<char>)
    ensures
        values_of(add_value(add_value(opts, k, a), k, b), k) == values_of(opts, k) + seq![a, b],
{
    let opts1 = add_value(opts, k, a);
    match key_from(opts, k, 0) {
        Some(j) => {
            lemma_key_from(opts, k, 0);
            lemma_key_from_same_keys(opts, opts1, k, 0);
            let opts2 = add_value(opts1, k, b);
            lemma_key_from_same_keys(opts1, opts2, k, 0);
            assert(opts[j as int].1.push(a).push(b) =~= opts[j as int].1 + seq![a, b]);
        },
        None => {
            lemma_key_from_push(opts, (k, seq![a]), k, 0);
            let opts2 = add_value(opts1, k, b);
            lemma_key_from_same_keys(opts1, opts2, k, 0);
            assert(seq![a].push(b) =~= Seq::<Seq<char>>::empty() + seq![a, b]);
        },
    }
}

/// Once the scan meets `--`, the options stay as they were; the tokens
/// after it go to the remaining positionals in order, and the tokens beyond
/// those become the leftovers exactly as given.
pub proof fn lemma_separator(atoms: Seq<AtomView>, argv: Seq<Seq<char>>, i: nat, t: Tally)
    requires
        i < argv.len(),
        argv[i as int] == "--"@,
        t.pos.len() <= positional_decls(atoms).len(),
    ensures
        ({
            let remaining = positional_decls(atoms).skip(t.pos.len() as int);
            let rest = argv.skip(i + 1 as int);
            scan_from(atoms, argv, i, t) matches Ok(r) ==> {
                &&& r.opts == t.opts
                &&& r.leftovers == argv.skip(i + 1 + min(remaining.len() as int, rest.len() as int))
                &&& fill_rest(remaining, rest, 0, t.pos) == Ok::<PosEntries, ArgFault>(r.pos)
            }
        }),
{
    let remaining = positional_decls(atoms).skip(t.pos.len() as int);
    let rest = argv.skip(i + 1 as int);
    let m = min(remaining.len() as int, rest.len() as int);
    assert(rest.skip(m) =~= argv.skip(i + 1 + m));
}

/// A dash-led token, other than `--`, whose name no option of the command
/// spells stops the match with an unknown-option error, and nothing else.
pub proof fn lemma_unknown_option(atoms: Seq<AtomView>, argv: Seq<Seq<char>>, i: nat, t: Tally)
    requires
        i < argv.len(),
        argv[i as int] != "--"@,
        argv[i as int].len() > 0,
        argv[i as int][0] == '-',
        option_from(atoms, split_first(argv[i as int], '=').0, 0) is None,
    ensures
        scan_from(atoms, argv, i, t) == Err::<Tally, ArgFault>(
            ArgFault::UnknownOption(split_first(argv[i as int], '=').0),
        ),
{
}

/// The same, for a whole match whose first token is such an option.
pub proof fn lemma_unknown_option_fails_match(cmd: CommandView, argv: Seq<Seq<char>>)
    requires
        argv.len() > 0,
        argv[0] != "--"@,
        argv[0].len() > 0,
        argv[0][0] == '-',
        option_from(items_atoms(cmd.items), split_first(argv[0], '=').0, 0) is None,
    ensures
        match_command(cmd, argv) == Err::<ParseResultView, ArgFault>(
            ArgFault::UnknownOption(split_first(argv[0], '=').0),
        ),
{
    lemma_unknown_option(items_atoms(cmd.items), argv, 0, empty_tally());
}

proof fn lemma_defaults_extend(atoms: Seq<AtomView>, j: nat, opts: OptEntries)
    ensures
        option_defaults_from(atoms, j, opts) matches Ok(o) ==> o.len() >= opts.len() && o.take(
            opts.len() as int,
        ) == opts,
    decreases atoms.len() - j,
{
    if j < atoms.len() {
        let a = atoms[j as int];
        let key = option_key(a);
        match a {
            AtomView::OptVal { ty, default, .. } => {
                if has_key(opts, key) || default is None {
                    lemma_defaults_extend(atoms, j + 1, opts);
                } else if let Ok(x) = coerce(ty, default->0) {
                    let next = opts.push((key, seq![x]));
                    lemma_defaults_extend(atoms, j + 1, next);
                    if let Ok(o) = option_defaults_from(atoms, j + 1, next) {
                        assert(o.take(opts.len() as int) =~= next.take(opts.len() as int));
                        assert(next.take(opts.len() as int) =~= opts);
                    }
                }
            },
            AtomView::OptBool { .. } => {
                if has_key(opts, key) {
                    lemma_defaults_extend(atoms, j + 1, opts);
                } else {
                    let next = opts.push((key, seq!["false"@]));
                    lemma_defaults_extend(atoms, j + 1, next);
                    if let Ok(o) = option_defaults_from(atoms, j + 1, next) {
                        assert(o.take(opts.len() as int) =~= next.take(opts.len() as int));
                        assert(next.take(opts.len() as int) =~= opts);
                    }
                }
            },
            _ => {
                lemma_defaults_extend(atoms, j + 1, opts);
            },
        }
    }
}

proof fn lemma_key_from_prefix(o: OptEntries, opts: OptEntries, k: Seq<char>)
    requires
        o.len() >= opts.len(),
        o.take(opts.len() as int) == opts,
        key_from(opts, k, 0) is Some,
    ensures
        key_from(o, k, 0) == key_from(opts, k, 0),
        values_of(o, k) == values_of(opts, k),
{
    lemma_key_from_extend(opts, o.skip(opts.len() as int), k, 0);
    assert(opts + o.skip(opts.len() as int) =~= o);
    lemma_key_from(opts, k, 0);
}

/// The value that the defaulting pass gives to the option at `q`, when its
/// key was not recorded by the scan.
pub open spec fn default_reading(a: AtomView) -> Option<Seq<char>> {
    match a {
        AtomView::OptBool { .. } => Some("false"@),
        AtomView::OptVal { ty, default: Some(d), .. } => match coerce(ty, d) {
            Ok(x) => Some(x),
            Err(_) => None,
        },
        _ => None,
    }
}

proof fn lemma_default_reaches(atoms: Seq<AtomView>, j: nat, opts: OptEntries, q: int)
    requires
        j <= q < atoms.len(),
        default_reading(atoms[q]) is Some,
        !has_key(opts, option_key(atoms[q])),
        forall|m: int|
            j <= m < q && (atoms[m] is OptBool || atoms[m] is OptVal) ==> option_key(
                #[trigger] atoms[m],
            ) != option_key(atoms[q]),
        option_defaults_from(atoms, j, opts) is Ok,
    ensures
        values_of(option_defaults_from(atoms, j, opts)->Ok_0, option_key(atoms[q])) == seq![
            default_reading(atoms[q])->0,
        ],
    decreases q - j,
{
    let k = option_key(atoms[q]);
    let a = atoms[j as int];
    let key = option_key(a);
    if j == q {
        let x = default_reading(a)->0;
        let next = opts.push((k, seq![x]));
        assert(option_defaults_from(atoms, j, opts) == option_defaults_from(atoms, j + 1, next));
        assert(key_from(opts, k, 0) is None) by {
            lemma_key_from(opts, k, 0);
        }
        lemma_key_from_push(opts, (k, seq![x]), k, 0);
        lemma_defaults_extend(atoms, j + 1, next);
        lemma_key_from_prefix(option_defaults_from(atoms, j + 1, next)->Ok_0, next, k);
    } else {
        let next = match a {
            AtomView::OptVal { ty, default, .. } => if has_key(opts, key) || default is None {
                opts
            } else {
                opts.push((key, seq![coerce(ty, default->0)->Ok_0]))
            },
            AtomView::OptBool { .. } => if has_key(opts, key) {
                opts
            } else {
                opts.push((key, seq!["false"@]))
            },
            _ => opts,
        };
        assert(option_defaults_from(atoms, j, opts) == option_defaults_from(atoms, j + 1, next));
        assert(!has_key(next, k)) by {
            if has_key(next, k) {
                let m = choose|m: int| 0 <= m < next.len() && next[m].0 == k;
                if m < opts.len() {
                    assert(next[m] == opts[m]);
                }
            }
        }
        lemma_default_reaches(atoms, j + 1, next, q);
    }
}

/// Defaults, read back: when the scan recorded nothing under an option's
/// key and no earlier option shares that key, a flag reads `false` and a
/// value option with a default reads that default, coerced; an `INT`,
/// `STR` or `PATH` default comes back exactly as written.
pub proof fn lemma_default_round_trip(atoms: Seq<AtomView>, opts: OptEntries, q: int)
    requires
        0 <= q < atoms.len(),
        default_reading(atoms[q]) is Some,
        !has_key(opts, option_key(atoms[q])),
        forall|m: int|
            0 <= m < q && (atoms[m] is OptBool || atoms[m] is OptVal) ==> option_key(
                #[trigger] atoms[m],
            ) != option_key(atoms[q]),
        option_defaults_from(atoms, 0, opts) is Ok,
    ensures
        values_of(option_defaults_from(atoms, 0, opts)->Ok_0, option_key(atoms[q])) == seq![
            default_reading(atoms[q])->0,
        ],
        atoms[q] matches AtomView::OptVal { ty, default: Some(d), .. } ==> ty != Type::Bool
            ==> default_reading(atoms[q]) == Some(d),
{
    lemma_default_reaches(atoms, 0, opts, q);
}


/// A token that the scan reads as a literal of the command: one of its
/// literals, neither `--` nor led by a dash.
pub open spec fn plain_literal(atoms: Seq<AtomView>, t: Seq<char>) -> bool {
    literal_of(atoms, t) && t != "--"@ && !(t.len() > 0 && t[0] == '-')
}

/// A token that the scan reads as a positional value: neither `--`, nor
/// led by a dash, nor a literal of the command.
pub open spec fn plain_value(atoms: Seq<AtomView>, t: Seq<char>) -> bool {
    !literal_of(atoms, t) && t != "--"@ && !(t.len() > 0 && t[0] == '-')
}

/// The positionals `decls` paired with the values `vals`, coerced.
pub open spec fn assigned(decls: Seq<AtomView>, vals: Seq<Seq<char>>) -> PosEntries {
    Seq::new(
        vals.len(),
        |k: int| (pos_parts(decls[k]).0, coerce(pos_parts(decls[k]).1, vals[k])->Ok_0),
    )
}

/// Whether every value option's default, where it has one, fits its type.
pub open spec fn defaults_fit(atoms: Seq<AtomView>) -> bool {
    forall|q: int|
        0 <= q < atoms.len() ==> (#[trigger] atoms[q] matches AtomView::OptVal {
            ty,
            default: Some(d),
            ..
        } ==> coerce(ty, d) is Ok)
}

/// Whether the option at `q` is the first option that reports under its key.
pub open spec fn first_with_key(atoms: Seq<AtomView>, q: int) -> bool {
    forall|m: int|
        0 <= m < q && (atoms[m] is OptBool || atoms[m] is OptVal) ==> option_key(
            #[trigger] atoms[m],
        ) != option_key(atoms[q])
}

/// Whether `a` is a value option without a default.
pub open spec fn without_default(a: AtomView) -> bool {
    a matches AtomView::OptVal { default: None, .. }
}

/// Whether the option at `q` is the only option that reports under its key.
pub open spec fn sole_with_key(atoms: Seq<AtomView>, q: int) -> bool {
    forall|m: int|
        0 <= m < atoms.len() && m != q && (atoms[m] is OptBool || atoms[m] is OptVal)
            ==> option_key(#[trigger] atoms[m]) != option_key(atoms[q])
}

proof fn lemma_scan_literals(atoms: Seq<AtomView>, argv: Seq<Seq<char>>, n: nat, i: nat, t: Tally)
    requires
        i <= n <= argv.len(),
        forall|m: int| i <= m < n ==> plain_literal(atoms, #[trigger] argv[m]),
    ensures
        scan_from(atoms, argv, i, t) == scan_from(atoms, argv, n, t),
    decreases n - i,
{
    if i < n {
        assert(plain_literal(atoms, argv[i as int]));
        lemma_scan_literals(atoms, argv, n, i + 1, t);
    }
}

proof fn lemma_scan_values(
    atoms: Seq<AtomView>,
    lits: Seq<Seq<char>>,
    vals: Seq<Seq<char>>,
    k: nat,
    t: Tally,
)
    requires
        k <= vals.len() == positional_decls(atoms).len(),
        forall|m: int|
            0 <= m < vals.len() ==> plain_value(atoms, #[trigger] vals[m]) && coerce(
                pos_parts(positional_decls(atoms)[m]).1,
                vals[m],
            ) is Ok,
        t.pos == assigned(positional_decls(atoms), vals).take(k as int),
    ensures
        scan_from(atoms, lits + vals, lits.len() + k, t) == Ok::<Tally, ArgFault>(
            Tally {
                opts: t.opts,
                pos: assigned(positional_decls(atoms), vals),
                leftovers: t.leftovers,
            },
        ),
    decreases vals.len() - k,
{
    let argv = lits + vals;
    let decls = positional_decls(atoms);
    let all = assigned(decls, vals);
    if k < vals.len() {
        let i = lits.len() + k;
        assert(argv[i as int] == vals[k as int]);
        assert(plain_value(atoms, vals[k as int]));
        let next = Tally {
            opts: t.opts,
            pos: t.pos.push(all[k as int]),
            leftovers: t.leftovers,
        };
        assert(all.take(k + 1 as int) =~= all.take(k as int).push(all[k as int]));
        lemma_scan_values(atoms, lits, vals, k + 1, next);
        assert(scan_from(atoms, argv, i, t) == scan_from(atoms, argv, i + 1, next));
    } else {
        assert(all.take(k as int) =~= all);
        assert(argv.len() == lits.len() + k);
    }
}

proof fn lemma_option_defaults_ok(atoms: Seq<AtomView>, j: nat, opts: OptEntries)
    requires
        defaults_fit(atoms),
    ensures
        option_defaults_from(atoms, j, opts) is Ok,
    decreases atoms.len() - j,
{
    if j < atoms.len() {
        let a = atoms[j as int];
        let key = option_key(a);
        match a {
            AtomView::OptVal { ty, default, .. } => {
                if has_key(opts, key) || default is None {
                    lemma_option_defaults_ok(atoms, j + 1, opts);
                } else {
                    assert(coerce(ty, default->0) is Ok);
                    lemma_option_defaults_ok(
                        atoms,
                        j + 1,
                        opts.push((key, seq![coerce(ty, default->0)->Ok_0])),
                    );
                }
            },
            AtomView::OptBool { .. } => {
                if has_key(opts, key) {
                    lemma_option_defaults_ok(atoms, j + 1, opts);
                } else {
                    lemma_option_defaults_ok(atoms, j + 1, opts.push((key, seq!["false"@])));
                }
            },
            _ => {
                lemma_option_defaults_ok(atoms, j + 1, opts);
            },
        }
    }
}

/// Keys that the defaulting pass adds come from options that have a
/// reading of their own: flags, and value options with a default.
proof fn lemma_defaults_keys(atoms: Seq<AtomView>, j: nat, opts: OptEntries, k: Seq<char>)
    requires
        !has_key(opts, k),
        forall|m: int|
            j <= m < atoms.len() && (atoms[m] is OptBool || atoms[m] matches AtomView::OptVal {
                default: Some(_),
                ..
            }) ==> option_key(#[trigger] atoms[m]) != k,
    ensures
        option_defaults_from(atoms, j, opts) matches Ok(o) ==> !has_key(o, k),
    decreases atoms.len() - j,
{
    if j < atoms.len() {
        let a = atoms[j as int];
        let key = option_key(a);
        let next = match a {
            AtomView::OptVal { ty, default, .. } => if has_key(opts, key) || default is None {
                opts
            } else {
                opts.push((key, seq![coerce(ty, default->0)->Ok_0]))
            },
            AtomView::OptBool { .. } => if has_key(opts, key) {
                opts
            } else {
                opts.push((key, seq!["false"@]))
            },
            _ => opts,
        };
        assert(!has_key(next, k)) by {
            if has_key(next, k) {
                let m = choose|m: int| 0 <= m < next.len() && next[m].0 == k;
                if m < opts.len() {
                    assert(next[m] == opts[m]);
                }
            }
        }
        lemma_defaults_keys(atoms, j + 1, next, k);
        match a {
            AtomView::OptVal { ty, default, .. } => {
                if !(has_key(opts, key) || default is None) {
                    if coerce(ty, default->0) is Ok {
                        assert(option_defaults_from(atoms, j, opts) == option_defaults_from(
                            atoms,
                            j + 1,
                            next,
                        ));
                    }
                }
            },
            _ => {},
        }
    }
}

proof fn lemma_positionals_present(decls: Seq<AtomView>, j: nat, pos: PosEntries)
    requires
        forall|m: int| j <= m < decls.len() ==> has_key(pos, #[trigger] pos_parts(decls[m]).0),
    ensures
        positional_defaults_from(decls, j, pos) == Ok::<PosEntries, ArgFault>(pos),
    decreases decls.len() - j,
{
    if j < decls.len() {
        assert(has_key(pos, pos_parts(decls[j as int]).0));
        lemma_positionals_present(decls, j + 1, pos);
    }
}

/// An argument list made of literals of the command followed by one
/// well-typed value per positional matches: the positionals take those
/// values in order, nothing is left over, each flag that was not given
/// reads `false`, and a value option without a default that was not given
/// has no entry at all.
pub proof fn lemma_plain_input_matches(cmd: CommandView, lits: Seq<Seq<char>>, vals: Seq<Seq<char>>)
    requires
        forall|m: int| 0 <= m < lits.len() ==> plain_literal(items_atoms(cmd.items), #[trigger] lits[m]),
        vals.len() == positional_decls(items_atoms(cmd.items)).len(),
        forall|m: int|
            0 <= m < vals.len() ==> plain_value(items_atoms(cmd.items), #[trigger] vals[m]) && coerce(
                pos_parts(positional_decls(items_atoms(cmd.items))[m]).1,
                vals[m],
            ) is Ok,
        defaults_fit(items_atoms(cmd.items)),
    ensures
        match_command(cmd, lits + vals) matches Ok(r) && {
            let atoms = items_atoms(cmd.items);
            &&& r.command == cmd.name
            &&& r.positionals == assigned(positional_decls(atoms), vals)
            &&& r.leftovers.len() == 0
            &&& forall|q: int|
                0 <= q < atoms.len() && #[trigger] atoms[q] is OptBool && first_with_key(atoms, q)
                    ==> values_of(r.options, option_key(atoms[q])) == seq!["false"@]
            &&& forall|q: int|
                0 <= q < atoms.len() && without_default(#[trigger] atoms[q]) && sole_with_key(
                    atoms,
                    q,
                ) ==> !has_key(r.options, option_key(atoms[q]))
        },
{
    let atoms = items_atoms(cmd.items);
    let decls = positional_decls(atoms);
    let argv = lits + vals;
    let t0 = empty_tally();
    assert forall|m: int| 0 <= m < lits.len() implies plain_literal(atoms, #[trigger] argv[m]) by {
        assert(argv[m] == lits[m]);
    }
    lemma_scan_literals(atoms, argv, lits.len(), 0, t0);
    assert(assigned(decls, vals).take(0) =~= t0.pos);
    lemma_scan_values(atoms, lits, vals, 0, t0);
    let all = assigned(decls, vals);
    lemma_option_defaults_ok(atoms, 0, t0.opts);
    let o = option_defaults_from(atoms, 0, t0.opts)->Ok_0;
    assert forall|m: int| 0 <= m < decls.len() implies has_key(all, #[trigger] pos_parts(decls[m]).0) by {
        assert(all[m].0 == pos_parts(decls[m]).0);
    }
    lemma_positionals_present(decls, 0, all);
    assert forall|q: int|
        0 <= q < atoms.len() && #[trigger] atoms[q] is OptBool && first_with_key(atoms, q)
            implies values_of(o, option_key(atoms[q])) == seq!["false"@] by {
        lemma_default_round_trip(atoms, t0.opts, q);
    }
    assert forall|q: int|
        0 <= q < atoms.len() && without_default(#[trigger] atoms[q]) && sole_with_key(atoms, q)
            implies !has_key(o, option_key(atoms[q])) by {
        let k = option_key(atoms[q]);
        assert forall|m: int|
            0 <= m < atoms.len() && (atoms[m] is OptBool || atoms[m] matches AtomView::OptVal {
                default: Some(_),
                ..
            }) implies option_key(#[trigger] atoms[m]) != k by {
            assert(m != q);
        }
        lemma_defaults_keys(atoms, 0, t0.opts, k);
    }
}

} // verus!
