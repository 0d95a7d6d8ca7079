//! Help text for a [`Spec`]: the usage summary, and a table of its keys with
//! descriptions, generated or supplied by the caller.
use vstd::prelude::*;
use vstd::string::*;
use crate::grammar::{
    Atom, AtomView, CommandView, Group, GroupView, Item, ItemView, Spec, SpecView, commands_view,
    items_atoms, items_view, type_token,
};
use crate::text::text_opt;
use crate::runtime::{collect_atoms, has_key, key_from, refs_view};

verus! {

/// `prefix` followed by `o`'s text, or nothing when `o` is absent.
pub open spec fn opt_text(prefix: Seq<char>, o: Option<Seq<char>>) -> Seq<char> {
    match o {
        Some(d) => prefix + d,
        None => Seq::empty(),
    }
}

pub open spec fn repeat_mark(r: bool) -> Seq<char> {
    if r {
        "+"@
    } else {
        Seq::empty()
    }
}

/// How an atom reads inside the usage summary.
pub open spec fn atom_text(a: AtomView) -> Seq<char> {
    match a {
        AtomView::Lit(s) => s,
        AtomView::OptBool { long, short } => match (short, long) {
            (Some(s), Some(l)) => "["@ + s + "|"@ + l + "]"@,
            (Some(s), None) => "["@ + s + "]"@,
            (None, Some(l)) => "["@ + l + "]"@,
            (None, None) => "[]"@,
        },
        AtomView::OptVal { long, short, ty, default, allow_repeat } => {
            let name = match (short, long) {
                (Some(s), _) => s,
                (None, Some(l)) => l,
                (None, None) => "--?"@,
            };
            "["@ + name + "="@ + type_token(ty) + opt_text(":"@, default) + repeat_mark(
                allow_repeat,
            ) + "]"@
        },
        AtomView::Pos { name, ty, default } => "<"@ + name + ":"@ + type_token(ty) + opt_text(
            ":"@,
            default,
        ) + ">"@,
    }
}

/// Alternatives joined by `|`.
pub open spec fn alt_text(v: Seq<AtomView>) -> Seq<char>
    decreases v.len(),
{
    if v.len() == 0 {
        Seq::empty()
    } else if v.len() == 1 {
        atom_text(v[0])
    } else {
        alt_text(v.drop_last()) + "|"@ + atom_text(v.last())
    }
}

pub open spec fn group_text(g: GroupView) -> Seq<char> {
    match g {
        GroupView::Single(a) => atom_text(a),
        GroupView::Alt(v) => alt_text(v),
    }
}

pub open spec fn item_text(i: ItemView) -> Seq<char> {
    match i {
        ItemView::Required(g) => group_text(g),
        ItemView::Optional(g) => "["@ + group_text(g) + "]"@,
    }
}

/// Whether the summary shows an item: the literal that names the command
/// is left out.
pub open spec fn shown(i: ItemView, name: Seq<char>) -> bool {
    match i {
        ItemView::Required(GroupView::Single(AtomView::Lit(s))) => s != name,
        ItemView::Required(GroupView::Alt(v)) => !(exists|k: int|
            0 <= k < v.len() && v[k] == AtomView::Lit(name)),
        _ => true,
    }
}

pub open spec fn items_text(items: Seq<ItemView>, name: Seq<char>) -> Seq<char>
    decreases items.len(),
{
    if items.len() == 0 {
        Seq::empty()
    } else {
        items_text(items.drop_last(), name) + if shown(items.last(), name) {
            item_text(items.last()) + " "@
        } else {
            Seq::empty()
        }
    }
}

pub open spec fn commands_text(cmds: Seq<CommandView>) -> Seq<char>
    decreases cmds.len(),
{
    if cmds.len() == 0 {
        Seq::empty()
    } else {
        let c = cmds.last();
        commands_text(cmds.drop_last()) + "  "@ + c.name + " "@ + items_text(c.items, c.name)
            + "\n"@
    }
}

/// The usage summary: one line per command, its name then its items.
pub open spec fn usage_text(s: SpecView) -> Seq<char> {
    "Usage:\n"@ + commands_text(s.commands)
}

/// The names of an option as a table key shows them.
pub open spec fn names_text(long: Option<Seq<char>>, short: Option<Seq<char>>) -> Seq<char> {
    match (short, long) {
        (Some(s), Some(l)) => s + ", "@ + l,
        (Some(s), None) => s,
        (None, Some(l)) => l,
        (None, None) => "--?"@,
    }
}

/// The key under which an atom is documented.
pub open spec fn key_text(a: AtomView) -> Seq<char> {
    match a {
        AtomView::OptBool { long, short } => names_text(long, short),
        AtomView::OptVal { long, short, ty, default, allow_repeat } => names_text(long, short)
            + "="@ + type_token(ty) + opt_text(":"@, default) + repeat_mark(allow_repeat),
        AtomView::Pos { name, ty, default } => "<"@ + name + ":"@ + type_token(ty) + opt_text(
            ":"@,
            default,
        ) + ">"@,
        AtomView::Lit(s) => s,
    }
}

/// The generated description of an atom.
pub open spec fn description(a: AtomView) -> Seq<char> {
    match a {
        AtomView::Lit(_) => "command"@,
        AtomView::OptBool { .. } => "boolean flag"@,
        AtomView::OptVal { ty, default, allow_repeat, .. } => "value option "@ + type_token(ty)
            + opt_text(" (default "@, default) + if default is Some {
            ")"@
        } else {
            Seq::empty()
        } + if allow_repeat {
            " (repeatable)"@
        } else {
            Seq::empty()
        },
        AtomView::Pos { ty, default, .. } => "positional "@ + type_token(ty) + opt_text(
            " (default "@,
            default,
        ) + if default is Some {
            ")"@
        } else {
            Seq::empty()
        },
    }
}

pub type DocEntries = Seq<(Seq<char>, Seq<char>)>;

/// `p` with `(k, d)` added, unless `k` is already documented.
pub open spec fn add_doc(p: DocEntries, k: Seq<char>, d: Seq<char>) -> DocEntries {
    if has_key(p, k) {
        p
    } else {
        p.push((k, d))
    }
}

pub open spec fn atom_docs(p: DocEntries, atoms: Seq<AtomView>) -> DocEntries
    decreases atoms.len(),
{
    if atoms.len() == 0 {
        p
    } else {
        let q = atom_docs(p, atoms.drop_last());
        add_doc(q, key_text(atoms.last()), description(atoms.last()))
    }
}

/// The entry for a command whose first item is its literal.
pub open spec fn head_doc(p: DocEntries, c: CommandView) -> DocEntries {
    if c.items.len() > 0 {
        match c.items[0] {
            ItemView::Required(GroupView::Single(AtomView::Lit(s))) => add_doc(p, s, "command"@),
            _ => p,
        }
    } else {
        p
    }
}

/// The generated documentation: each command's leading literal and each
/// atom, first occurrence of each key only, in order.
pub open spec fn synth_entries(cmds: Seq<CommandView>) -> DocEntries
    decreases cmds.len(),
{
    if cmds.len() == 0 {
        Seq::empty()
    } else {
        let c = cmds.last();
        atom_docs(head_doc(synth_entries(cmds.drop_last()), c), items_atoms(c.items))
    }
}

/// The generated entries, each description replaced by the user's for the
/// same key when the user gives one.
pub open spec fn merged(user: DocEntries, synth: DocEntries) -> DocEntries {
    synth.map_values(
        |e: (Seq<char>, Seq<char>)|
            (
                e.0,
                match key_from(user, e.0, 0) {
                    Some(j) => user[j as int].1,
                    None => e.1,
                },
            ),
    )
}

/// The width of a key, in characters.
pub open spec fn width(k: Seq<char>) -> nat {
    k.len()
}

pub open spec fn max_width(p: DocEntries) -> nat
    decreases p.len(),
{
    if p.len() == 0 {
        0
    } else {
        let m = max_width(p.drop_last());
        if m >= width(p.last().0) {
            m
        } else {
            width(p.last().0)
        }
    }
}

pub open spec fn spaces(n: nat) -> Seq<char> {
    Seq::new(n, |i: int| ' ')
}

pub open spec fn rows_text(p: DocEntries, w: nat) -> Seq<char>
    decreases p.len(),
{
    if p.len() == 0 {
        Seq::empty()
    } else {
        let e = p.last();
        rows_text(p.drop_last(), w) + "  "@ + e.0 + spaces((w - width(e.0)) as nat) + "  -  "@
            + e.1 + "\n"@
    }
}

/// The table of keys and descriptions, keys padded to one width.
pub open spec fn docs_text(p: DocEntries) -> Seq<char> {
    if p.len() == 0 {
        Seq::empty()
    } else {
        "Options & Arguments:\n"@ + rows_text(p, max_width(p))
    }
}

pub open spec fn doc_entries(v: Seq<(String, String)>) -> DocEntries {
    v.map_values(|e: (String, String)| (e.0@, e.1@))
}

fn push_text(r: &mut String, s: &str)
    ensures
        final(r)@ == old(r)@ + s@,
{
    r.append(s);
}

fn push_opt(r: &mut String, prefix: &str, o: &Option<String>)
    ensures
        final(r)@ == old(r)@ + opt_text(prefix@, text_opt(*o)),
{
    let ghost before = r@;
    match o {
        Some(d) => {
            r.append(prefix);
            r.append(d.as_str());
            assert(r@ =~= before + (prefix@ + d@));
        },
        None => {
            assert(r@ =~= before + Seq::<char>::empty());
        },
    }
}

fn push_mark(r: &mut String, repeat: bool)
    ensures
        final(r)@ == old(r)@ + repeat_mark(repeat),
{
    let ghost before = r@;
    if repeat {
        r.append("+");
    } else {
        assert(r@ =~= before + Seq::<char>::empty());
    }
}

fn show_atom(atom: &Atom) -> (r: String)
    ensures
        r@ == atom_text(atom@),
{
    match atom {
        Atom::Lit(s) => s.clone(),
        Atom::OptBool { long, short } => {
            let mut r = String::from_str("[");
            match short {
                Some(s) => {
                    r.append(s.as_str());
                    match long {
                        Some(l) => {
                            r.append("|");
                            r.append(l.as_str());
                            r.append("]");
                            assert(r@ =~= "["@ + s@ + "|"@ + l@ + "]"@);
                        },
                        None => {
                            r.append("]");
                            assert(r@ =~= "["@ + s@ + "]"@);
                        },
                    }
                },
                None => match long {
                    Some(l) => {
                        r.append(l.as_str());
                        r.append("]");
                        assert(r@ =~= "["@ + l@ + "]"@);
                    },
                    None => {
                        r = String::from_str("[]");
                    },
                },
            }
            r
        },
        Atom::OptVal { long, short, ty, default, allow_repeat } => {
            let mut r = String::from_str("[");
            match short {
                Some(s) => r.append(s.as_str()),
                None => match long {
                    Some(l) => r.append(l.as_str()),
                    None => r.append("--?"),
                },
            }
            let ghost named = r@;
            r.append("=");
            r.append(ty.to_string());
            push_opt(&mut r, ":", default);
            push_mark(&mut r, *allow_repeat);
            r.append("]");
            assert(r@ =~= named + "="@ + type_token(*ty) + opt_text(":"@, text_opt(*default))
                + repeat_mark(*allow_repeat) + "]"@);
            r
        },
        Atom::Pos { name, ty, default } => {
            let mut r = String::from_str("<");
            r.append(name.as_str());
            r.append(":");
            r.append(ty.to_string());
            push_opt(&mut r, ":", default);
            r.append(">");
            assert(r@ =~= "<"@ + name@ + ":"@ + type_token(*ty) + opt_text(":"@, text_opt(*default))
                + ">"@);
            r
        },
    }
}

fn show_group(group: &Group) -> (r: String)
    ensures
        r@ == group_text(group@),
{
    match group {
        Group::Single(a) => show_atom(a),
        Group::Alt(atoms) => {
            let ghost av = crate::grammar::atoms_view(atoms@);
            let mut r = String::new();
            for k in 0..atoms.len()
                invariant
                    av == crate::grammar::atoms_view(atoms@),
                    r@ == alt_text(av.take(k as int)),
            {
                proof {
                    assert(av.take(k + 1).drop_last() =~= av.take(k as int));
                    assert(av.take(k + 1).last() == atoms@[k as int]@);
                }
                if k > 0 {
                    r.append("|");
                }
                let part = show_atom(&atoms[k]);
                r.append(part.as_str());
                proof {
                    if k == 0 {
                        assert(av.take(1)[0] == atoms@[0]@);
                        assert(r@ =~= part@);
                    }
                }
            }
            proof {
                assert(av.take(atoms@.len() as int) =~= av);
            }
            r
        },
    }
}

fn show_item(item: &Item) -> (r: String)
    ensures
        r@ == item_text(item@),
{
    match item {
        Item::Required(group) => show_group(group),
        Item::Optional(group) => {
            let mut r = String::from_str("[");
            let g = show_group(group);
            r.append(g.as_str());
            r.append("]");
            assert(r@ =~= "["@ + g@ + "]"@);
            r
        },
    }
}

fn is_shown(item: &Item, name: &String) -> (r: bool)
    ensures
        r == shown(item@, name@),
{
    match item {
        Item::Required(Group::Single(Atom::Lit(s))) => *s != *name,
        Item::Required(Group::Alt(atoms)) => {
            let ghost av = crate::grammar::atoms_view(atoms@);
            let ghost iv = item@;
            assert(iv == ItemView::Required(GroupView::Alt(av)));
            for k in 0..atoms.len()
                invariant
                    av == crate::grammar::atoms_view(atoms@),
                    iv == item@,
                    iv == ItemView::Required(GroupView::Alt(av)),
                    forall|q: int| 0 <= q < k ==> av[q] != AtomView::Lit(name@),
            {
                match &atoms[k] {
                    Atom::Lit(s) => {
                        if *s == *name {
                            assert(av[k as int] == AtomView::Lit(name@));
                            assert(exists|q: int| 0 <= q < av.len() && av[q] == AtomView::Lit(name@));
                            return false;
                        }
                    },
                    _ => {},
                }
            }
            true
        },
        _ => true,
    }
}

/// The usage summary of `spec`: one line per command, its name, then each
/// item but the literal that names it.
pub fn render(spec: &Spec) -> (r: String)
    ensures
        r@ == usage_text(spec@),
{
    let ghost cv = commands_view(spec.commands@);
    let mut result = String::from_str("Usage:\n");
    proof {
        assert(cv.take(0) =~= Seq::<CommandView>::empty());
        assert(result@ =~= "Usage:\n"@ + commands_text(cv.take(0)));
    }
    for i in 0..spec.commands.len()
        invariant
            cv == commands_view(spec.commands@),
            result@ == "Usage:\n"@ + commands_text(cv.take(i as int)),
    {
        let cmd = &spec.commands[i];
        let ghost iv = items_view(cmd.items@);
        result.append("  ");
        result.append(cmd.name.as_str());
        result.append(" ");
        let ghost head = result@;
        proof {
            assert(iv.take(0) =~= Seq::<ItemView>::empty());
            assert(head =~= head + items_text(iv.take(0), cmd.name@));
        }
        for k in 0..cmd.items.len()
            invariant
                iv == items_view(cmd.items@),
                result@ == head + items_text(iv.take(k as int), cmd.name@),
        {
            proof {
                assert(iv.take(k + 1).drop_last() =~= iv.take(k as int));
                assert(iv.take(k + 1).last() == cmd.items@[k as int]@);
            }
            if is_shown(&cmd.items[k], &cmd.name) {
                let part = show_item(&cmd.items[k]);
                result.append(part.as_str());
                result.append(" ");
                assert(result@ =~= head + (items_text(iv.take(k as int), cmd.name@) + (part@
                    + " "@)));
            } else {
                assert(result@ =~= head + (items_text(iv.take(k as int), cmd.name@)
                    + Seq::<char>::empty()));
            }
        }
        result.append("\n");
        proof {
            assert(iv.take(cmd.items@.len() as int) =~= iv);
            assert(cv.take(i + 1).drop_last() =~= cv.take(i as int));
            assert(cv.take(i + 1).last() == cmd@);
            assert(result@ =~= "Usage:\n"@ + (commands_text(cv.take(i as int)) + "  "@ + cmd.name@
                + " "@ + items_text(iv, cmd.name@) + "\n"@));
        }
    }
    proof {
        assert(cv.take(spec.commands@.len() as int) =~= cv);
    }
    result
}

/// The key under which `atom` is documented.
pub fn key_string_of_atom(atom: &Atom) -> (r: String)
    ensures
        r@ == key_text(atom@),
{
    match atom {
        Atom::OptBool { long, short } => names_of(long, short),
        Atom::OptVal { long, short, ty, default, allow_repeat } => {
            let mut r = names_of(long, short);
            let ghost base = r@;
            r.append("=");
            r.append(ty.to_string());
            push_opt(&mut r, ":", default);
            push_mark(&mut r, *allow_repeat);
            assert(r@ =~= base + "="@ + type_token(*ty) + opt_text(":"@, text_opt(*default))
                + repeat_mark(*allow_repeat));
            r
        },
        Atom::Pos { .. } => show_atom(atom),
        Atom::Lit(s) => s.clone(),
    }
}

fn names_of(long: &Option<String>, short: &Option<String>) -> (r: String)
    ensures
        r@ == names_text(text_opt(*long), text_opt(*short)),
{
    match short {
        Some(s) => match long {
            Some(l) => {
                let mut r = s.clone();
                r.append(", ");
                r.append(l.as_str());
                r
            },
            None => s.clone(),
        },
        None => match long {
            Some(l) => l.clone(),
            None => String::from_str("--?"),
        },
    }
}

fn push_default_note(r: &mut String, default: &Option<String>)
    ensures
        final(r)@ == old(r)@ + opt_text(" (default "@, text_opt(*default)) + if default is Some {
            ")"@
        } else {
            Seq::<char>::empty()
        },
{
    push_opt(r, " (default ", default);
    let ghost mid = r@;
    if default.is_some() {
        r.append(")");
    } else {
        assert(r@ =~= mid + Seq::<char>::empty());
    }
}

/// The key and generated description of `atom`.
fn synth_line(atom: &Atom) -> (r: (String, String))
    ensures
        r.0@ == key_text(atom@),
        r.1@ == description(atom@),
{
    let key = key_string_of_atom(atom);
    let desc = match atom {
        Atom::Lit(_) => String::from_str("command"),
        Atom::OptBool { .. } => String::from_str("boolean flag"),
        Atom::OptVal { ty, default, allow_repeat, .. } => {
            let mut d = String::from_str("value option ");
            d.append(ty.to_string());
            push_default_note(&mut d, default);
            let ghost mid = d@;
            if *allow_repeat {
                d.append(" (repeatable)");
            } else {
                assert(d@ =~= mid + Seq::<char>::empty());
            }
            d
        },
        Atom::Pos { ty, default, .. } => {
            let mut d = String::from_str("positional ");
            d.append(ty.to_string());
            push_default_note(&mut d, default);
            d
        },
    };
    (key, desc)
}

fn has_doc(entries: &Vec<(String, String)>, key: &String) -> (r: bool)
    ensures
        r == has_key(doc_entries(entries@), key@),
{
    let ghost ev = doc_entries(entries@);
    for m in 0..entries.len()
        invariant
            ev == doc_entries(entries@),
            forall|q: int| 0 <= q < m ==> ev[q].0 != key@,
    {
        if entries[m].0 == *key {
            assert(ev[m as int].0 == key@);
            return true;
        }
    }
    false
}

fn add_entry(entries: &mut Vec<(String, String)>, key: String, desc: String)
    ensures
        doc_entries(final(entries)@) == add_doc(doc_entries(old(entries)@), key@, desc@),
{
    let ghost before = doc_entries(entries@);
    if !has_doc(entries, &key) {
        let ghost k = key@;
        let ghost d = desc@;
        entries.push((key, desc));
        assert(doc_entries(entries@) =~= before.push((k, d)));
    }
}

/// The generated documentation of `spec`.
fn synth_docs(spec: &Spec) -> (r: Vec<(String, String)>)
    ensures
        doc_entries(r@) == synth_entries(spec@.commands),
{
    let ghost cv = commands_view(spec.commands@);
    let mut result: Vec<(String, String)> = Vec::new();
    proof {
        assert(cv.take(0) =~= Seq::<CommandView>::empty());
        assert(doc_entries(result@) =~= Seq::empty());
    }
    for i in 0..spec.commands.len()
        invariant
            cv == commands_view(spec.commands@),
            doc_entries(result@) == synth_entries(cv.take(i as int)),
    {
        let cmd = &spec.commands[i];
        proof {
            assert(cv.take(i + 1).drop_last() =~= cv.take(i as int));
            assert(cv.take(i + 1).last() == cmd@);
        }
        let ghost start = doc_entries(result@);
        if cmd.items.len() > 0 {
            match &cmd.items[0] {
                Item::Required(Group::Single(Atom::Lit(s))) => {
                    add_entry(&mut result, s.clone(), String::from_str("command"));
                },
                _ => {},
            }
        }
        let ghost headed = doc_entries(result@);
        assert(headed == head_doc(start, cmd@));
        let atoms = collect_atoms(&cmd.items);
        let ghost av = refs_view(atoms@);
        proof {
            assert(av.take(0) =~= Seq::<AtomView>::empty());
        }
        for k in 0..atoms.len()
            invariant
                av == refs_view(atoms@),
                doc_entries(result@) == atom_docs(headed, av.take(k as int)),
        {
            proof {
                assert(av.take(k + 1).drop_last() =~= av.take(k as int));
                assert(av.take(k + 1).last() == atoms@[k as int]@);
            }
            let (key, desc) = synth_line(atoms[k]);
            add_entry(&mut result, key, desc);
        }
        proof {
            assert(av.take(atoms@.len() as int) =~= av);
        }
    }
    proof {
        assert(cv.take(spec.commands@.len() as int) =~= cv);
    }
    result
}

/// The index of the first entry of `entries` under `key`.
fn doc_index(entries: &[(String, String)], key: &String) -> (r: Option<usize>)
    ensures
        match r {
            Some(j) => key_from(doc_entries(entries@), key@, 0) == Some(j as nat) && j
                < entries@.len(),
            None => key_from(doc_entries(entries@), key@, 0) is None,
        },
{
    let ghost ev = doc_entries(entries@);
    let mut i: usize = 0;
    while i < entries.len()
        invariant
            ev == doc_entries(entries@),
            i <= entries@.len(),
            key_from(ev, key@, 0) == key_from(ev, key@, i as nat),
        decreases entries@.len() - i,
    {
        if entries[i].0 == *key {
            assert(ev[i as int].0 == key@);
            return Some(i);
        }
        i = i + 1;
    }
    None
}

/// The generated entries with the user's descriptions put in where the
/// user documents the same key.
fn merge_docs(user: &[(String, String)], synth: Vec<(String, String)>) -> (r: Vec<(String, String)>)
    ensures
        doc_entries(r@) == merged(doc_entries(user@), doc_entries(synth@)),
{
    let ghost uv = doc_entries(user@);
    let ghost sv = doc_entries(synth@);
    let mut out: Vec<(String, String)> = Vec::new();
    for i in 0..synth.len()
        invariant
            uv == doc_entries(user@),
            sv == doc_entries(synth@),
            doc_entries(out@) == merged(uv, sv.take(i as int)),
    {
        let key = &synth[i].0;
        let found = doc_index(user, key);
        let desc = match found {
            Some(j) => user[j].1.clone(),
            None => synth[i].1.clone(),
        };
        let ghost before = doc_entries(out@);
        out.push((key.clone(), desc));
        proof {
            let e = sv[i as int];
            let d = match key_from(uv, e.0, 0) {
                Some(j) => uv[j as int].1,
                None => e.1,
            };
            assert(desc@ == d);
            assert(merged(uv, sv.take(i + 1)) =~= merged(uv, sv.take(i as int)).push((e.0, d)));
            assert(doc_entries(out@) =~= before.push((key@, desc@)));
        }
    }
    proof {
        assert(sv.take(synth@.len() as int) =~= sv);
    }
    out
}

/// The table of documented keys, padded to the widest key.
fn render_docs(pairs: &Vec<(String, String)>) -> (r: String)
    ensures
        r@ == docs_text(doc_entries(pairs@)),
{
    let ghost pv = doc_entries(pairs@);
    if pairs.len() == 0 {
        return String::new();
    }
    let mut max_len: usize = 0;
    proof {
        assert(pv.take(0) =~= Seq::<(Seq<char>, Seq<char>)>::empty());
    }
    for i in 0..pairs.len()
        invariant
            pv == doc_entries(pairs@),
            max_len == max_width(pv.take(i as int)),
    {
        proof {
            assert(pv.take(i + 1).drop_last() =~= pv.take(i as int));
            assert(pv.take(i + 1).last().0 == pairs@[i as int].0@);
        }
        let l = pairs[i].0.as_str().unicode_len();
        if l > max_len {
            max_len = l;
        }
    }
    proof {
        assert(pv.take(pairs@.len() as int) =~= pv);
    }
    let mut result = String::from_str("Options & Arguments:\n");
    proof {
        assert(result@ =~= "Options & Arguments:\n"@ + rows_text(pv.take(0), max_len as nat));
    }
    for i in 0..pairs.len()
        invariant
            pv == doc_entries(pairs@),
            max_len == max_width(pv),
            result@ == "Options & Arguments:\n"@ + rows_text(pv.take(i as int), max_len as nat),
    {
        proof {
            assert(pv.take(i + 1).drop_last() =~= pv.take(i as int));
            assert(pv.take(i + 1).last() == pv[i as int]);
            lemma_max_width(pv, i as int);
        }
        let key = &pairs[i].0;
        result.append("  ");
        result.append(key.as_str());
        let pad = max_len - key.as_str().unicode_len();
        let ghost padded = result@;
        for q in 0..pad
            invariant
                result@ == padded + spaces(q as nat),
        {
            result.append(" ");
            assert(spaces((q + 1) as nat) =~= spaces(q as nat) + " "@) by {
                reveal_strlit(" ");
            }
        }
        result.append("  -  ");
        result.append(pairs[i].1.as_str());
        result.append("\n");
        assert(result@ =~= "Options & Arguments:\n"@ + (rows_text(pv.take(i as int), max_len as nat)
            + "  "@ + key@ + spaces(pad as nat) + "  -  "@ + pairs@[i as int].1@ + "\n"@));
    }
    proof {
        assert(pv.take(pairs@.len() as int) =~= pv);
    }
    result
}

proof fn lemma_max_width(p: DocEntries, i: int)
    requires
        0 <= i < p.len(),
    ensures
        width(p[i].0) <= max_width(p),
    decreases p.len(),
{
    if i < p.len() - 1 {
        lemma_max_width(p.drop_last(), i);
        assert(p.drop_last()[i] == p[i]);
    }
}

/// The usage summary, a blank line, then the table of keys: generated
/// descriptions, replaced by `user_docs` where it documents the same key.
pub fn render_with_docs(spec: &Spec, user_docs: &[(String, String)]) -> (r: String)
    ensures
        r@ == usage_text(spec@) + "\n"@ + docs_text(
            merged(doc_entries(user_docs@), synth_entries(spec@.commands)),
        ),
{
    let usage = render(spec);
    let synth = synth_docs(spec);
    let merged_docs = merge_docs(user_docs, synth);
    let docs = render_docs(&merged_docs);
    let mut r = usage;
    r.append("\n");
    r.append(docs.as_str());
    r
}

} // verus!
