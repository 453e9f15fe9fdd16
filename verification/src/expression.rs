//! Luau expressions that lead from one instance to another.

use vstd::prelude::*;

use crate::edits::{lemma_line_breaks, line_breaks};
use crate::error::{outcome, Error};
use crate::literals::{quoted_text, quoted_unit, LiteralError};
use crate::module_index::{common_length, count_common};

verus! {

/// A hexadecimal digit, in lower case.
pub open spec fn hex_digit(value: u32) -> char {
    if value < 10 {
        ('0' as u32 + value) as char
    } else {
        ('a' as u32 + value - 10) as char
    }
}

/// A character in a JSON string.
pub open spec fn json_char(c: char) -> Seq<char> {
    if c == '"' || c == '\\' {
        seq!['\\', c]
    } else if c == '\u{8}' {
        seq!['\\', 'b']
    } else if c == '\u{c}' {
        seq!['\\', 'f']
    } else if c == '\n' {
        seq!['\\', 'n']
    } else if c == '\r' {
        seq!['\\', 'r']
    } else if c == '\t' {
        seq!['\\', 't']
    } else if (c as u32) < 0x20 {
        seq!['\\', 'u', '0', '0', hex_digit(c as u32 / 16), hex_digit(c as u32 % 16)]
    } else {
        seq![c]
    }
}

/// The characters of a text in a JSON string.
pub open spec fn json_chars(text: Seq<char>) -> Seq<char>
    decreases text.len(),
{
    if text.len() == 0 {
        seq![]
    } else {
        json_chars(text.drop_last()) + json_char(text.last())
    }
}

/// A text as a JSON string.
pub open spec fn json_string(text: Seq<char>) -> Seq<char> {
    seq!['"'] + json_chars(text) + seq!['"']
}

/// `serde_json::to_string` on a text: between double quotes, with `"`, `\` and the
/// control characters below U+0020 escaped. It does not fail on a text.
#[verifier::external_body]
fn to_json(text: &str) -> (json: String)
    ensures
        json@ == json_string(text@),
{
    serde_json::to_string(text).unwrap()
}

/// Steps up to ancestors.
pub open spec fn parent_steps(count: nat) -> Seq<char>
    decreases count,
{
    if count == 0 {
        seq![]
    } else {
        parent_steps((count - 1) as nat) + ".Parent"@
    }
}

/// A step down to a child.
pub open spec fn child_step(name: Seq<char>) -> Seq<char> {
    ":WaitForChild("@ + json_string(name) + ")"@
}

/// Steps down, from child to child.
pub open spec fn child_steps(names: Seq<Seq<char>>) -> Seq<char>
    decreases names.len(),
{
    if names.len() == 0 {
        seq![]
    } else {
        child_steps(names.drop_last()) + child_step(names.last())
    }
}

/// The expression that leads from a script to an instance: up to the nearest common
/// ancestor, and down by the names of the children.
pub open spec fn relative_expression(
    importer: Seq<Seq<char>>,
    target: Seq<Seq<char>>,
) -> Result<Seq<char>, Error<Seq<char>>> {
    let common = common_length(importer, target);
    if common == 0 {
        Err(Error::NoSharedRoot)
    } else {
        Ok(
            "script"@ + parent_steps((importer.len() - common) as nat) + child_steps(
                target.skip(common as int),
            ),
        )
    }
}

fn append_instance_component(expression: &mut String, component: &str)
    ensures
        final(expression)@ == old(expression)@ + child_step(component@),
{
    let ghost before = expression@;
    expression.append(":WaitForChild(");
    expression.append(to_json(component).as_str());
    expression.append(")");
    assert(expression@ == before + child_step(component@));
}

/// The expression that leads from the script at `importer_instance_path` to the
/// instance at `target_instance_path`.
pub fn format_relative_instance_path(
    importer_instance_path: &Vec<String>,
    target_instance_path: &Vec<String>,
) -> (expression: Result<String, Error<String>>)
    ensures
        outcome(expression) == relative_expression(
            importer_instance_path.deep_view(),
            target_instance_path.deep_view(),
        ),
{
    let common: usize = count_common(importer_instance_path, target_instance_path);
    if common == 0 {
        return Err(Error::NoSharedRoot);
    }
    let mut expression = "script".to_owned();
    let mut i: usize = common;
    assert(expression@ == "script"@ + parent_steps(0));
    while i < importer_instance_path.len()
        invariant
            common <= i <= importer_instance_path@.len(),
            expression@ == "script"@ + parent_steps((i - common) as nat),
        decreases importer_instance_path@.len() - i,
    {
        expression.append(".Parent");
        i += 1;
        assert(expression@ == "script"@ + parent_steps((i - common) as nat));
    }
    let ghost up = expression@;
    let ghost names = target_instance_path.deep_view().skip(common as int);
    let mut i: usize = common;
    assert(expression@ == up + child_steps(names.take(0)));
    while i < target_instance_path.len()
        invariant
            common <= i <= target_instance_path@.len(),
            names == target_instance_path.deep_view().skip(common as int),
            expression@ == up + child_steps(names.take(i - common)),
        decreases target_instance_path@.len() - i,
    {
        let ghost done = names.take(i + 1 - common);
        append_instance_component(&mut expression, target_instance_path[i].as_str());
        assert(done.drop_last() == names.take(i - common));
        assert(done.last() == target_instance_path@[i as int]@);
        i += 1;
        assert(expression@ == up + child_steps(names.take(i - common)));
    }
    assert(names.take(i - common) == names);
    Ok(expression)
}

/// An expression leads to its target: up as many steps as it takes from the script, the
/// remaining names down from there. It goes up no further than it has to.
pub proof fn expressions_lead_to_their_target(importer: Seq<Seq<char>>, target: Seq<Seq<char>>)
    ensures
        ({
            let common = common_length(importer, target) as int;
            &&& common <= importer.len()
            &&& common <= target.len()
            &&& importer.take(common) + target.skip(common) == target
            &&& common < importer.len() && common < target.len() ==> importer[common]
                != target[common]
        }),
    decreases importer.len(),
{
    if importer.len() > 0 && target.len() > 0 && importer[0] == target[0] {
        let above = importer.drop_first();
        let below = target.drop_first();
        expressions_lead_to_their_target(above, below);
        let common = common_length(above, below) as int;
        assert(importer.take(common + 1) == seq![importer[0]] + above.take(common));
        assert(target.skip(common + 1) == below.skip(common));
        assert(seq![target[0]] + below == target);
        assert(seq![importer[0]] + above.take(common) + below.skip(common) == seq![importer[0]] + (
        above.take(common) + below.skip(common)));
    } else {
        assert(importer.take(0) + target.skip(0) == target);
    }
}

/// Whether JSON writes a character in a way that Luau reads: everything but the control
/// characters without a short escape.
pub open spec fn luau_reads(c: char) -> bool {
    ||| c as u32 >= 0x20
    ||| c == '\u{8}'
    ||| c == '\u{c}'
    ||| c == '\n'
    ||| c == '\r'
    ||| c == '\t'
}

/// Luau reads the name of a child as it was before it was written.
pub proof fn names_are_read_back(name: Seq<char>)
    requires
        forall|i: int| 0 <= i < name.len() ==> luau_reads(#[trigger] name[i]),
    ensures
        quoted_text(json_chars(name)) == Ok::<Seq<char>, LiteralError>(name),
    decreases name.len(),
{
    if name.len() > 0 {
        let c = name[0];
        let rest = name.drop_first();
        assert forall|i: int| 0 <= i < rest.len() implies luau_reads(#[trigger] rest[i]) by {
            assert(rest[i] == name[i + 1]);
        }
        names_are_read_back(rest);
        lemma_json_chars_first(name);
        let text = json_chars(name);
        let first = json_char(c);
        assert(luau_reads(name[0]));
        assert(text.skip(first.len() as int) == json_chars(rest));
        assert(text[0] == first[0]);
        if first.len() > 1 {
            assert(text[1] == first[1]);
        }
        assert(quoted_unit(text) == Ok::<(Seq<char>, nat), LiteralError>((seq![c], first.len())));
        assert(seq![c] + rest == name);
    } else {
        assert(name == Seq::<char>::empty());
    }
}

proof fn lemma_json_chars_first(text: Seq<char>)
    requires
        text.len() > 0,
    ensures
        json_chars(text) == json_char(text[0]) + json_chars(text.drop_first()),
    decreases text.len(),
{
    if text.len() == 1 {
        assert(text.drop_last() == Seq::<char>::empty());
        assert(text.drop_first() == Seq::<char>::empty());
        assert(Seq::<char>::empty() + json_char(text[0]) == json_char(text[0]));
        assert(json_char(text[0]) + Seq::<char>::empty() == json_char(text[0]));
    } else {
        let before = text.drop_last();
        lemma_json_chars_first(before);
        assert(before.drop_first() == text.drop_first().drop_last());
        assert(text.drop_first().last() == text.last());
        assert(json_char(text[0]) + json_chars(before.drop_first()) + json_char(text.last())
            == json_char(text[0]) + (json_chars(before.drop_first()) + json_char(text.last())));
    }
}

/// An expression takes up no line of its own, whatever the instances are called.
pub proof fn expressions_hold_no_line_break(importer: Seq<Seq<char>>, target: Seq<Seq<char>>)
    ensures
        relative_expression(importer, target) matches Ok(expression) ==> line_breaks(expression)
            == 0,
{
    let common = common_length(importer, target);
    if common > 0 {
        let up = "script"@ + parent_steps((importer.len() - common) as nat);
        reveal_strlit("script");
        lemma_no_breaks("script"@);
        lemma_parent_steps((importer.len() - common) as nat);
        lemma_line_breaks("script"@, parent_steps((importer.len() - common) as nat));
        lemma_child_steps(target.skip(common as int));
        lemma_line_breaks(up, child_steps(target.skip(common as int)));
    }
}

/// A text without a line break holds none.
proof fn lemma_no_breaks(text: Seq<char>)
    requires
        forall|i: int| 0 <= i < text.len() ==> text[i] != '\n',
    ensures
        line_breaks(text) == 0,
    decreases text.len(),
{
    if text.len() > 0 {
        lemma_no_breaks(text.drop_last());
    }
}

proof fn lemma_parent_steps(count: nat)
    ensures
        line_breaks(parent_steps(count)) == 0,
    decreases count,
{
    if count > 0 {
        lemma_parent_steps((count - 1) as nat);
        reveal_strlit(".Parent");
        lemma_no_breaks(".Parent"@);
        lemma_line_breaks(parent_steps((count - 1) as nat), ".Parent"@);
    }
}

proof fn lemma_json_chars(text: Seq<char>)
    ensures
        line_breaks(json_chars(text)) == 0,
    decreases text.len(),
{
    if text.len() > 0 {
        lemma_json_chars(text.drop_last());
        let c = text.last();
        assert(c as u32 % 16 < 16 && (c as u32) < 0x20 ==> (c as u32 / 16) < 10);
        lemma_hex_digit(c as u32 / 16);
        lemma_hex_digit(c as u32 % 16);
        lemma_no_breaks(json_char(c));
        lemma_line_breaks(json_chars(text.drop_last()), json_char(c));
    }
}

proof fn lemma_hex_digit(value: u32)
    ensures
        value < 16 ==> hex_digit(value) != '\n',
{
}

proof fn lemma_child_steps(names: Seq<Seq<char>>)
    ensures
        line_breaks(child_steps(names)) == 0,
    decreases names.len(),
{
    if names.len() > 0 {
        let name = names.last();
        lemma_child_steps(names.drop_last());
        reveal_strlit(":WaitForChild(");
        reveal_strlit(")");
        lemma_no_breaks(":WaitForChild("@);
        lemma_no_breaks(")"@);
        lemma_json_chars(name);
        lemma_no_breaks(seq!['"']);
        lemma_line_breaks(seq!['"'], json_chars(name));
        lemma_line_breaks(seq!['"'] + json_chars(name), seq!['"']);
        lemma_line_breaks(":WaitForChild("@, json_string(name));
        lemma_line_breaks(":WaitForChild("@ + json_string(name), ")"@);
        lemma_line_breaks(child_steps(names.drop_last()), child_step(name));
    }
}

} // verus!
