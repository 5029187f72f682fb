//! Handing the sockets to the child: the environment variables that name
//! the descriptors, and the line that reports them.

use crate::addr::{address_text, push_address};
use crate::kind::label_of;
use crate::registry::BoundSocket;
use crate::text::{
    chars_of, decimal_text, equal_in, free_of, integer_of, integer_text, joined,
    lemma_integer_text, lemma_joined_no_pair, lemma_joined_push, lemma_split_joined,
    push_decimal, push_integer, read_integer, split, split_in,
};
use vstd::prelude::*;

verus! {

/// The variable that holds the list of descriptors unless another is asked
/// for.
pub const DEFAULT_ENV: &'static str = "LISTEN_FD";

/// The variable that holds the number of sockets unless another is asked
/// for.
pub const DEFAULT_NENV: &'static str = "LISTEN_FDS";

/// The name that stands for no variable.
pub const DISABLED: &'static str = "-";

/// A variable of the environment and its value.
#[derive(Clone, Debug, PartialEq, Eq)]
pub struct Assignment {
    pub name: String,
    pub value: String,
}

/// An assignment: the name and the value as sequences of characters.
pub struct AssignmentView {
    pub name: Seq<char>,
    pub value: Seq<char>,
}

impl View for Assignment {
    type V = AssignmentView;

    open spec fn view(&self) -> AssignmentView {
        AssignmentView { name: self.name@, value: self.value@ }
    }
}

/// The assignments by their views.
pub open spec fn assignment_views(vars: Seq<Assignment>) -> Seq<AssignmentView> {
    Seq::new(vars.len(), |i: int| vars[i]@)
}

/// The descriptors of the sockets as decimal numerals between commas, in
/// the order of the sockets.
pub open spec fn descriptor_list_of(sockets: Seq<BoundSocket>) -> Seq<char> {
    joined(Seq::new(sockets.len(), |i: int| integer_text(sockets[i].descriptor as int)), seq![','])
}

/// The name that stands for no variable, as a sequence of characters.
pub open spec fn disabled() -> Seq<char> {
    seq!['-']
}

/// The variables that hand the sockets to the child: the list of
/// descriptors under the first name, then the number of sockets under the
/// second; neither where the name is `-`.
pub open spec fn handoff_of(sockets: Seq<BoundSocket>, env: Seq<char>, nenv: Seq<char>) -> Seq<
    AssignmentView,
> {
    (if env == disabled() {
        Seq::<AssignmentView>::empty()
    } else {
        seq![AssignmentView { name: env, value: descriptor_list_of(sockets) }]
    }) + (if nenv == disabled() {
        Seq::<AssignmentView>::empty()
    } else {
        seq![AssignmentView { name: nenv, value: decimal_text(sockets.len()) }]
    })
}

/// What the report says of one socket: the name of its kind, the address
/// that it is bound to if it is bound, and its descriptor.
pub open spec fn entry_of(socket: BoundSocket) -> Seq<char> {
    label_of(socket.kind) + (match socket.actual {
        Some(address) => seq![' '] + address_text(address),
        None => Seq::<char>::empty(),
    }) + " fd "@ + integer_text(socket.descriptor as int)
}

/// The line that reports the sockets, in their order.
pub open spec fn summary_of(sockets: Seq<BoundSocket>) -> Seq<char> {
    joined(Seq::new(sockets.len(), |i: int| entry_of(sockets[i])), ", "@)
}

/// The descriptors of the sockets as decimal numerals between commas.
pub fn descriptor_list(sockets: &Vec<BoundSocket>) -> (s: String)
    ensures
        s@ == descriptor_list_of(sockets@),
{
    let ghost items = Seq::new(
        sockets@.len(),
        |i: int| integer_text(sockets@[i].descriptor as int),
    );
    let mut s = String::new();
    let mut i: usize = 0;
    proof {
        reveal_strlit(",");
        assert(","@ =~= seq![',']);
        assert(items.take(0) == Seq::<Seq<char>>::empty());
    }
    while i < sockets.len()
        invariant
            i <= sockets@.len(),
            items == Seq::new(sockets@.len(), |i: int| integer_text(sockets@[i].descriptor as int)),
            ","@ == seq![','],
            s@ == joined(items.take(i as int), seq![',']),
        decreases sockets.len() - i,
    {
        let ghost before = s@;
        if i > 0 {
            s.append(",");
        }
        push_integer(&mut s, sockets[i].descriptor);
        proof {
            assert(items.take(i + 1) == items.take(i as int).push(items[i as int]));
            lemma_joined_push(items.take(i as int), seq![','], items[i as int]);
            if i == 0 {
                assert(before + items[0] =~= items[0]);
            }
        }
        i = i + 1;
    }
    proof {
        assert(items.take(sockets@.len() as int) == items);
    }
    s
}

/// Whether a name stands for no variable.
fn is_disabled(name: &str) -> (b: bool)
    ensures
        b == (name@ == disabled()),
{
    let chars = chars_of(name);
    proof {
        reveal_strlit("-");
        assert("-"@ =~= disabled());
        assert(chars@.subrange(0, chars@.len() as int) == chars@);
    }
    equal_in(&chars, 0, chars.len(), "-")
}

/// The variables to set for the child: the list of descriptors under the
/// name `env`, the number of sockets under the name `nenv`. The name `-`
/// stands for no variable.
pub fn handoff(sockets: &Vec<BoundSocket>, env: &str, nenv: &str) -> (vars: Vec<Assignment>)
    ensures
        assignment_views(vars@) == handoff_of(sockets@, env@, nenv@),
{
    let mut vars: Vec<Assignment> = Vec::new();
    if !is_disabled(env) {
        vars.push(Assignment { name: String::from_str(env), value: descriptor_list(sockets) });
    }
    if !is_disabled(nenv) {
        let mut count = String::new();
        push_decimal(&mut count, sockets.len() as u64);
        proof {
            assert(Seq::<char>::empty() + decimal_text(sockets@.len()) =~= decimal_text(
                sockets@.len(),
            ));
        }
        vars.push(Assignment { name: String::from_str(nenv), value: count });
    }
    proof {
        assert(assignment_views(vars@) =~= handoff_of(sockets@, env@, nenv@));
    }
    vars
}

/// Appends what the report says of one socket.
fn push_entry(s: &mut String, socket: &BoundSocket)
    ensures
        final(s)@ == old(s)@ + entry_of(*socket),
{
    proof {
        reveal_strlit(" ");
        assert(" "@ =~= seq![' ']);
    }
    s.append(socket.kind.label());
    match socket.actual {
        Some(address) => {
            s.append(" ");
            push_address(s, address);
        },
        None => {},
    }
    s.append(" fd ");
    push_integer(s, socket.descriptor);
    proof {
        assert(final(s)@ =~= old(s)@ + entry_of(*socket));
    }
}

/// The line that reports the sockets: for each, in their order, the name of
/// its kind, the address that it is bound to, and its descriptor.
pub fn summary(sockets: &Vec<BoundSocket>) -> (s: String)
    ensures
        s@ == summary_of(sockets@),
{
    let ghost items = Seq::new(sockets@.len(), |i: int| entry_of(sockets@[i]));
    let mut s = String::new();
    let mut i: usize = 0;
    proof {
        assert(items.take(0) == Seq::<Seq<char>>::empty());
    }
    while i < sockets.len()
        invariant
            i <= sockets@.len(),
            items == Seq::new(sockets@.len(), |i: int| entry_of(sockets@[i])),
            s@ == joined(items.take(i as int), ", "@),
        decreases sockets.len() - i,
    {
        let ghost before = s@;
        if i > 0 {
            s.append(", ");
        }
        push_entry(&mut s, &sockets[i]);
        proof {
            assert(items.take(i + 1) == items.take(i as int).push(items[i as int]));
            lemma_joined_push(items.take(i as int), ", "@, items[i as int]);
            if i == 0 {
                assert(before + items[0] =~= items[0]);
            }
        }
        i = i + 1;
    }
    proof {
        assert(items.take(sockets@.len() as int) == items);
    }
    s
}

/// The descriptors of the sockets, in their order.
pub open spec fn descriptors_of(sockets: Seq<BoundSocket>) -> Seq<i32> {
    Seq::new(sockets.len(), |i: int| sockets[i].descriptor)
}

/// The descriptors that a list names: integers between commas; none for the
/// empty list.
pub open spec fn list_of(s: Seq<char>) -> Option<Seq<i32>> {
    let f = split(s, ',');
    if s.len() == 0 {
        Some(Seq::empty())
    } else if forall|i: int| 0 <= i < f.len() ==> (#[trigger] integer_of(f[i])) is Some {
        Some(Seq::new(f.len(), |i: int| integer_of(f[i])->0))
    } else {
        None
    }
}

/// The descriptors that a child finds in the variable that holds the list:
/// the inverse of `descriptor_list`.
pub fn inherited(value: &str) -> (r: Option<Vec<i32>>)
    ensures
        r is Some <==> list_of(value@) is Some,
        r matches Some(v) ==> list_of(value@) == Some(v@),
{
    let s = chars_of(value);
    let ghost f = split(s@, ',');
    let mut descriptors: Vec<i32> = Vec::new();
    if s.len() == 0 {
        return Some(descriptors);
    }
    proof {
        assert(s@.subrange(0, s@.len() as int) == s@);
    }
    let fields = split_in(&s, 0, s.len(), ',');
    let mut i: usize = 0;
    while i < fields.len()
        invariant
            i <= fields@.len(),
            fields@.len() == f.len(),
            f == split(s@, ','),
            s@ == value@,
            s@.len() > 0,
            forall|j: int|
                0 <= j < fields@.len() ==> (#[trigger] fields@[j]).0 <= fields@[j].1 <= s@.len(),
            forall|j: int|
                0 <= j < fields@.len() ==> s@.subrange(
                    (#[trigger] fields@[j]).0 as int,
                    fields@[j].1 as int,
                ) == f[j],
            descriptors@.len() == i,
            forall|j: int| 0 <= j < i ==> integer_of(f[j]) == Some(#[trigger] descriptors@[j]),
        decreases fields.len() - i,
    {
        match read_integer(&s, fields[i].0, fields[i].1) {
            Some(fd) => {
                descriptors.push(fd);
            },
            None => {
                proof {
                    assert(integer_of(f[i as int]) is None);
                }
                return None;
            },
        }
        i = i + 1;
    }
    proof {
        assert forall|j: int| 0 <= j < f.len() implies (#[trigger] integer_of(f[j])) is Some by {
            assert(integer_of(f[j]) == Some(descriptors@[j]));
        }
        assert(descriptors@ =~= Seq::new(f.len(), |j: int| integer_of(f[j])->0));
    }
    Some(descriptors)
}

/// The list of descriptors names the descriptors of the sockets, in their
/// order: what the launcher writes, the child reads.
pub proof fn lemma_list_is_read_back(sockets: Seq<BoundSocket>)
    ensures
        list_of(descriptor_list_of(sockets)) == Some(descriptors_of(sockets)),
{
    let items = Seq::new(sockets.len(), |i: int| integer_text(sockets[i].descriptor as int));
    let text = descriptor_list_of(sockets);
    if sockets.len() == 0 {
        assert(descriptors_of(sockets) =~= Seq::<i32>::empty());
    } else {
        assert forall|i: int| 0 <= i < items.len() implies (#[trigger] items[i]).len() > 0
            && free_of(items[i], ',') by {
            lemma_integer_text(sockets[i].descriptor, ',');
        }
        lemma_split_joined(items, ',');
        lemma_joined_no_pair(items, ',');
        let f = split(text, ',');
        assert(f == items);
        assert forall|i: int| 0 <= i < f.len() implies (#[trigger] integer_of(f[i])) == Some(
            sockets[i].descriptor,
        ) by {
            lemma_integer_text(sockets[i].descriptor, ',');
        }
        assert(Seq::new(f.len(), |i: int| integer_of(f[i])->0) =~= descriptors_of(sockets));
    }
}

} // verus!
