//! Where expressions lead.

use vstd::prelude::*;

use crate::error::Error;
use crate::expression::{
    child_step, child_steps, expressions_lead_to_their_target, json_chars, parent_steps,
    relative_expression,
};
use crate::module_index::common_length;

verus! {

/// A step up.
pub open spec fn up() -> Seq<char> {
    seq!['.', 'P', 'a', 'r', 'e', 'n', 't']
}

/// A step down to a child: its name between double quotes, with `"`, `\` and the control
/// characters escaped.
pub open spec fn down(name: Seq<char>) -> Seq<char> {
    seq![':', 'W', 'a', 'i', 't', 'F', 'o', 'r', 'C', 'h', 'i', 'l', 'd', '(', '"'] + json_chars(
        name,
    ) + seq!['"', ')']
}

/// The expression that goes up from a script so many times and then down by names.
pub open spec fn route(ups: nat, names: Seq<Seq<char>>) -> Seq<char> {
    seq!['s', 'c', 'r', 'i', 'p', 't'] + Seq::new(ups, |i: int| up()).flatten()
        + names.map_values(|name: Seq<char>| down(name)).flatten()
}

/// Whether going up so many times from `importer` and then down by names leads to `target`,
/// and no shorter way does.
pub open spec fn leads_to(
    importer: Seq<Seq<char>>,
    ups: nat,
    names: Seq<Seq<char>>,
    target: Seq<Seq<char>>,
) -> bool {
    &&& ups < importer.len()
    &&& importer.take(importer.len() - ups) + names == target
    &&& ups > 0 && names.len() > 0 ==> names[0] != importer[importer.len() - ups]
}

proof fn lemma_parent_steps(count: nat)
    ensures
        parent_steps(count) == Seq::new(count, |i: int| up()).flatten(),
    decreases count,
{
    let row = Seq::new(count, |i: int| up());
    if count == 0 {
        assert(row == Seq::<Seq<char>>::empty());
    } else {
        let before = Seq::new((count - 1) as nat, |i: int| up());
        lemma_parent_steps((count - 1) as nat);
        assert(row == before.push(up()));
        before.lemma_flatten_push(up());
        reveal_strlit(".Parent");
        assert(".Parent"@ =~= up());
    }
}

proof fn lemma_child_steps(names: Seq<Seq<char>>)
    ensures
        child_steps(names) == names.map_values(|name: Seq<char>| down(name)).flatten(),
    decreases names.len(),
{
    let row = names.map_values(|name: Seq<char>| down(name));
    if names.len() == 0 {
        assert(row == Seq::<Seq<char>>::empty());
    } else {
        let before = names.drop_last().map_values(|name: Seq<char>| down(name));
        let last = names.last();
        lemma_child_steps(names.drop_last());
        assert(row == before.push(down(last)));
        before.lemma_flatten_push(down(last));
        reveal_strlit(":WaitForChild(");
        reveal_strlit(")");
        assert(child_step(last) =~= down(last));
    }
}

/// The expression from a script to an instance goes up to the nearest ancestor that the two
/// share and down from there by the names of the children, to the instance itself.
pub proof fn expressions_are_routes(importer: Seq<Seq<char>>, target: Seq<Seq<char>>)
    ensures
        importer.len() > 0 && target.len() > 0 && importer[0] == target[0] ==> exists|
            ups: nat,
            names: Seq<Seq<char>>,
        |
            #![trigger leads_to(importer, ups, names, target)]
            leads_to(importer, ups, names, target) && relative_expression(importer, target)
                == Ok::<_, Error<Seq<char>>>(route(ups, names)),
        !(importer.len() > 0 && target.len() > 0 && importer[0] == target[0])
            ==> relative_expression(importer, target) == Err::<Seq<char>, Error<Seq<char>>>(
            Error::NoSharedRoot,
        ),
{
    expressions_lead_to_their_target(importer, target);
    let common = common_length(importer, target);
    if importer.len() > 0 && target.len() > 0 && importer[0] == target[0] {
        assert(common > 0) by {
            if common == 0 {
                assert(importer[0] != target[0]);
            }
        }
        let ups = (importer.len() - common) as nat;
        let names = target.skip(common as int);
        lemma_parent_steps(ups);
        lemma_child_steps(names);
        reveal_strlit("script");
        assert("script"@ =~= seq!['s', 'c', 'r', 'i', 'p', 't']);
        if ups > 0 && names.len() > 0 {
            assert(names[0] == target[common as int]);
        }
        assert(leads_to(importer, ups, names, target));
        assert(relative_expression(importer, target) == Ok::<_, Error<Seq<char>>>(
            route(ups, names),
        ));
    } else if common > 0 {
        assert(importer.take(common as int) + target.skip(common as int) == target);
        assert((importer.take(common as int) + target.skip(common as int))[0] == importer[0]);
    }
}

/// There is one way only: as many steps up, and by the same names.
pub proof fn routes_are_unique(
    importer: Seq<Seq<char>>,
    target: Seq<Seq<char>>,
    ups: nat,
    names: Seq<Seq<char>>,
    other_ups: nat,
    other_names: Seq<Seq<char>>,
)
    requires
        leads_to(importer, ups, names, target),
        leads_to(importer, other_ups, other_names, target),
    ensures
        ups == other_ups,
        names == other_names,
{
    let a = importer.len() - ups;
    let b = importer.len() - other_ups;
    if a < b {
        assert(target[a] == names[0]);
        assert(target[a] == importer[a]);
    }
    if b < a {
        assert(target[b] == other_names[0]);
        assert(target[b] == importer[b]);
    }
    assert(names == target.skip(a));
    assert(other_names == target.skip(b));
}

/// The part of an expression that goes up is as long as the steps up take.
pub proof fn steps_up_take_seven_characters(count: nat)
    ensures
        parent_steps(count).len() == 7 * count,
    decreases count,
{
    if count > 0 {
        steps_up_take_seven_characters((count - 1) as nat);
        reveal_strlit(".Parent");
    }
}

} // verus!
