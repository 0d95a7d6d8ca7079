//! The structural grammar of usage lines: types, atoms, groups, items,
//! commands and whole specifications, with their mathematical views.
use vstd::prelude::*;
use vstd::string::*;
use crate::text::text_opt;

verus! {

/// The four kinds of value that an option or a positional may carry.
#[derive(Debug, Clone, Copy, PartialEq, Eq, Structural)]
pub enum Type {
    Int,
    Bool,
    Str,
    Path,
}

/// The uppercase token that names a type in a usage line.
pub open spec fn type_token(t: Type) -> Seq<char> {
    match t {
        Type::Int => "INT"@,
        Type::Bool => "BOOL"@,
        Type::Str => "STR"@,
        Type::Path => "PATH"@,
    }
}

/// The type that a token names, if it names one.
pub open spec fn type_of_token(s: Seq<char>) -> Option<Type> {
    if s == "INT"@ {
        Some(Type::Int)
    } else if s == "BOOL"@ {
        Some(Type::Bool)
    } else if s == "STR"@ {
        Some(Type::Str)
    } else if s == "PATH"@ {
        Some(Type::Path)
    } else {
        None
    }
}

/// Two texts are equal exactly when they hold the same characters.
pub fn same_text(a: &str, b: &str) -> (r: bool)
    ensures
        r == (a@ == b@),
{
    a.to_owned() == b.to_owned()
}

impl Type {
    /// The type named by `s`; any other token is an error that names it.
    pub fn from_str(s: &str) -> (r: Result<Type, String>)
        ensures
            match r {
                Ok(t) => type_of_token(s@) == Some(t),
                Err(m) => type_of_token(s@) is None && m@ == "Unknown type: "@ + s@,
            },
    {
        if same_text(s, "INT") {
            Ok(Type::Int)
        } else if same_text(s, "BOOL") {
            Ok(Type::Bool)
        } else if same_text(s, "STR") {
            Ok(Type::Str)
        } else if same_text(s, "PATH") {
            Ok(Type::Path)
        } else {
            let mut m = String::from_str("Unknown type: ");
            m.append(s);
            Err(m)
        }
    }

    /// The token that names this type.
    pub fn to_string(&self) -> (r: &'static str)
        ensures
            r@ == type_token(*self),
    {
        match self {
            Type::Int => "INT",
            Type::Bool => "BOOL",
            Type::Str => "STR",
            Type::Path => "PATH",
        }
    }
}

/// The smallest unit of a usage line.
#[derive(Debug, Clone, PartialEq, Eq)]
pub enum Atom {
    Lit(String),
    OptBool { long: Option<String>, short: Option<String> },
    OptVal {
        long: Option<String>,
        short: Option<String>,
        ty: Type,
        default: Option<String>,
        allow_repeat: bool,
    },
    Pos { name: String, ty: Type, default: Option<String> },
}

/// An atom, or alternative atoms that share one slot.
#[derive(Debug, Clone, PartialEq, Eq)]
pub enum Group {
    Single(Atom),
    Alt(Vec<Atom>),
}

/// A group that must appear, or one that may.
#[derive(Debug, Clone, PartialEq, Eq)]
pub enum Item {
    Required(Group),
    Optional(Group),
}

/// One usage line: its derived name and its items in order.
#[derive(Debug, Clone, PartialEq, Eq)]
pub struct Command {
    pub name: String,
    pub items: Vec<Item>,
}

/// All usage lines of one program.
#[derive(Debug, Clone, PartialEq, Eq)]
pub struct Spec {
    pub prog: String,
    pub commands: Vec<Command>,
}

/// The mathematical form of an [`Atom`].
pub enum AtomView {
    Lit(Seq<char>),
    OptBool { long: Option<Seq<char>>, short: Option<Seq<char>> },
    OptVal {
        long: Option<Seq<char>>,
        short: Option<Seq<char>>,
        ty: Type,
        default: Option<Seq<char>>,
        allow_repeat: bool,
    },
    Pos { name: Seq<char>, ty: Type, default: Option<Seq<char>> },
}

/// The mathematical form of a [`Group`].
pub enum GroupView {
    Single(AtomView),
    Alt(Seq<AtomView>),
}

/// The mathematical form of an [`Item`].
pub enum ItemView {
    Required(GroupView),
    Optional(GroupView),
}

/// The mathematical form of a [`Command`].
pub struct CommandView {
    pub name: Seq<char>,
    pub items: Seq<ItemView>,
}

/// The mathematical form of a [`Spec`].
pub struct SpecView {
    pub prog: Seq<char>,
    pub commands: Seq<CommandView>,
}

impl View for Atom {
    type V = AtomView;

    open spec fn view(&self) -> AtomView {
        match self {
            Atom::Lit(s) => AtomView::Lit(s@),
            Atom::OptBool { long, short } => AtomView::OptBool {
                long: text_opt(*long),
                short: text_opt(*short),
            },
            Atom::OptVal { long, short, ty, default, allow_repeat } => AtomView::OptVal {
                long: text_opt(*long),
                short: text_opt(*short),
                ty: *ty,
                default: text_opt(*default),
                allow_repeat: *allow_repeat,
            },
            Atom::Pos { name, ty, default } => AtomView::Pos {
                name: name@,
                ty: *ty,
                default: text_opt(*default),
            },
        }
    }
}

pub open spec fn atoms_view(v: Seq<Atom>) -> Seq<AtomView> {
    v.map_values(|a: Atom| a@)
}

impl View for Group {
    type V = GroupView;

    open spec fn view(&self) -> GroupView {
        match self {
            Group::Single(a) => GroupView::Single(a@),
            Group::Alt(v) => GroupView::Alt(atoms_view(v@)),
        }
    }
}

impl View for Item {
    type V = ItemView;

    open spec fn view(&self) -> ItemView {
        match self {
            Item::Required(g) => ItemView::Required(g@),
            Item::Optional(g) => ItemView::Optional(g@),
        }
    }
}

pub open spec fn items_view(v: Seq<Item>) -> Seq<ItemView> {
    v.map_values(|i: Item| i@)
}

impl View for Command {
    type V = CommandView;

    open spec fn view(&self) -> CommandView {
        CommandView { name: self.name@, items: items_view(self.items@) }
    }
}

pub open spec fn commands_view(v: Seq<Command>) -> Seq<CommandView> {
    v.map_values(|c: Command| c@)
}

impl View for Spec {
    type V = SpecView;

    open spec fn view(&self) -> SpecView {
        SpecView { prog: self.prog@, commands: commands_view(self.commands@) }
    }
}

/// The atoms of a group, in order.
pub open spec fn group_atoms(g: GroupView) -> Seq<AtomView> {
    match g {
        GroupView::Single(a) => seq![a],
        GroupView::Alt(v) => v,
    }
}

/// The group that an item tags.
pub open spec fn item_group(i: ItemView) -> GroupView {
    match i {
        ItemView::Required(g) => g,
        ItemView::Optional(g) => g,
    }
}

/// Every atom of a sequence of items, in declaration order.
pub open spec fn items_atoms(items: Seq<ItemView>) -> Seq<AtomView>
    decreases items.len(),
{
    if items.len() == 0 {
        Seq::empty()
    } else {
        items_atoms(items.drop_last()) + group_atoms(item_group(items.last()))
    }
}

/// The first literal met through the required items, looking at the
/// first member of an alternation, from item `i` on.
pub open spec fn first_lit_from(items: Seq<ItemView>, i: nat) -> Option<Seq<char>>
    decreases items.len() - i,
{
    if i >= items.len() {
        None
    } else {
        match items[i as int] {
            ItemView::Required(GroupView::Single(AtomView::Lit(s))) => Some(s),
            ItemView::Required(GroupView::Alt(v)) if v.len() > 0 && v[0] is Lit => Some(
                v[0]->Lit_0,
            ),
            _ => first_lit_from(items, i + 1),
        }
    }
}

/// The literal that names a command: the first one reachable through
/// its required items.
pub open spec fn first_lit(items: Seq<ItemView>) -> Option<Seq<char>> {
    first_lit_from(items, 0)
}

impl Group {
    /// The atoms of this group, in order.
    pub fn atoms(&self) -> (r: Vec<&Atom>)
        ensures
            r@.len() == group_atoms(self@).len(),
            forall|k: int| 0 <= k < r@.len() ==> r@[k]@ == #[trigger] group_atoms(self@)[k],
    {
        match self {
            Group::Single(a) => {
                let mut r: Vec<&Atom> = Vec::new();
                r.push(a);
                r
            },
            Group::Alt(v) => {
                let mut r: Vec<&Atom> = Vec::new();
                for k in 0..v.len()
                    invariant
                        r@.len() == k,
                        forall|j: int| 0 <= j < k ==> r@[j]@ == #[trigger] v@[j]@,
                {
                    r.push(&v[k]);
                }
                r
            },
        }
    }
}

} // verus!
