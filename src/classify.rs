//! Telling the kinds of combat line apart.
use vstd::prelude::*;
use crate::dps::damage_line;
use crate::grammar::line_body;
use crate::heal::heal_line;
use crate::text::{copy_range, digit_run, has_at, lemma_digit_run_facts, occurs_at};

verus! {

/// The kind of a combat line, by the first grammar it follows.
#[derive(Clone, Copy, Debug, PartialEq, Eq, Structural)]
pub enum LineKind {
    Food,
    Resource,
    SelfResource,
    Damage,
    Heal,
    Unrecognized,
}

pub open spec fn word_meal() -> Seq<char> {
    seq![
        'Y', 'o', 'u', 'r', ' ', 'm', 'e', 'a', 'l', ' ', 'r', 'e', 's', 't', 'o', 'r', 'e', 'd', ' ',
        'Y', 'o', 'u', ' ', 'f', 'o', 'r', ' ',
    ]
}

pub open spec fn word_food() -> Seq<char> {
    seq![' ', 'f', 'o', 'o', 'd']
}

pub open spec fn word_restored() -> Seq<char> {
    seq![' ', 'r', 'e', 's', 't', 'o', 'r', 'e', 'd', ' ', 'Y', 'o', 'u', ' ', 'f', 'o', 'r', ' ']
}

pub open spec fn word_drained() -> Seq<char> {
    seq![' ', 'd', 'r', 'a', 'i', 'n', 'e', 'd', ' ', 'Y', 'o', 'u', ' ', 'f', 'o', 'r', ' ']
}

pub open spec fn word_your() -> Seq<char> {
    seq!['Y', 'o', 'u', 'r', ' ']
}

/// `Your meal restored You for <n> food.`
pub open spec fn is_food(row: Seq<char>) -> bool {
    match line_body(row) {
        Some(body) => has_at(body, 0, word_meal()) && digit_run(body, 27) > 0 && body.subrange(
            27 + digit_run(body, 27),
            body.len() as int,
        ) == word_food(),
        None => false,
    }
}

/// After the number at `q`: a space and at least one more character.
pub open spec fn resource_tail(body: Seq<char>, q: int) -> bool {
    let d = digit_run(body, q);
    d > 0 && q + d + 1 < body.len() && body[q + d] == ' '
}

/// `<who> restored You for <n> <what>` or `<who> drained You for <n> <what>`,
/// with the verb at `p`.
pub open spec fn resource_at(body: Seq<char>, p: int) -> bool {
    (has_at(body, p, word_restored()) && resource_tail(body, p + 18)) || (has_at(
        body,
        p,
        word_drained(),
    ) && resource_tail(body, p + 17))
}

/// A resource line whose verb stands at `min` or later.
pub open spec fn is_resource_from(row: Seq<char>, min: int) -> bool {
    match line_body(row) {
        Some(body) => exists|p: int| min <= p && #[trigger] resource_at(body, p),
        None => false,
    }
}

/// `<who> restored|drained You for <n> <what>.`
pub open spec fn is_resource(row: Seq<char>) -> bool {
    is_resource_from(row, 1)
}

/// `Your <what> restored|drained You for <n> <what>.`
pub open spec fn is_self_resource(row: Seq<char>) -> bool {
    match line_body(row) {
        Some(body) => has_at(body, 0, word_your()) && is_resource_from(row, 6),
        None => false,
    }
}

/// The grammars are tried in this order, and the first that fits decides.
pub open spec fn line_kind(row: Seq<char>) -> LineKind {
    if is_food(row) {
        LineKind::Food
    } else if is_resource(row) {
        LineKind::Resource
    } else if is_self_resource(row) {
        LineKind::SelfResource
    } else if damage_line(row) is Some {
        LineKind::Damage
    } else if heal_line(row) is Some {
        LineKind::Heal
    } else {
        LineKind::Unrecognized
    }
}

fn body_of(chars: &Vec<char>) -> (r: Option<Vec<char>>)
    ensures
        r matches Some(b) ==> line_body(chars@) == Some(b@),
        r is None ==> line_body(chars@) is None,
{
    if chars.len() == 0 || chars[chars.len() - 1] != '.' {
        return None;
    }
    let b = copy_range(chars, 0, chars.len() - 1);
    assert(b@ =~= chars@.drop_last());
    Some(b)
}

fn food(chars: &Vec<char>) -> (r: bool)
    ensures
        r == is_food(chars@),
{
    let body = match body_of(chars) {
        Some(b) => b,
        None => {
            return false;
        },
    };
    let meal = vec![
        'Y', 'o', 'u', 'r', ' ', 'm', 'e', 'a', 'l', ' ', 'r', 'e', 's', 't', 'o', 'r', 'e', 'd', ' ',
        'Y', 'o', 'u', ' ', 'f', 'o', 'r', ' ',
    ];
    assert(meal@ =~= word_meal());
    let word = vec![' ', 'f', 'o', 'o', 'd'];
    assert(word@ =~= word_food());
    if !occurs_at(&body, 0, &meal) {
        return false;
    }
    let d = crate::grammar::digit_count(&body, 27);
    proof {
        lemma_digit_run_facts(body@, 27);
    }
    if d == 0 {
        return false;
    }
    let rest = copy_range(&body, 27 + d, body.len());
    if rest.len() != 5 {
        return false;
    }
    let b = occurs_at(&rest, 0, &word);
    assert(rest@.subrange(0, 5) =~= rest@);
    b
}

fn tail_at(body: &Vec<char>, q: usize) -> (r: bool)
    ensures
        r == resource_tail(body@, q as int),
{
    let d = crate::grammar::digit_count(body, q);
    proof {
        lemma_digit_run_facts(body@, q as int);
    }
    if d == 0 {
        return false;
    }
    assert(q + d <= body.len());
    q + d < body.len() && q + d + 1 < body.len() && body[q + d] == ' '
}

fn resource_from(chars: &Vec<char>, min: usize) -> (r: bool)
    ensures
        r == is_resource_from(chars@, min as int),
{
    let body = match body_of(chars) {
        Some(b) => b,
        None => {
            return false;
        },
    };
    let restored = vec![
        ' ', 'r', 'e', 's', 't', 'o', 'r', 'e', 'd', ' ', 'Y', 'o', 'u', ' ', 'f', 'o', 'r', ' ',
    ];
    assert(restored@ =~= word_restored());
    let drained = vec![' ', 'd', 'r', 'a', 'i', 'n', 'e', 'd', ' ', 'Y', 'o', 'u', ' ', 'f', 'o', 'r', ' '];
    assert(drained@ =~= word_drained());
    let mut p = min;
    while p < body.len()
        invariant
            min <= p,
            line_body(chars@) == Some(body@),
            restored@ == word_restored(),
            drained@ == word_drained(),
            forall|j: int| min <= j < p ==> !#[trigger] resource_at(body@, j),
        decreases body.len() - p,
    {
        let a = occurs_at(&body, p, &restored);
        if a {
            assert(body@.subrange(p as int, p + 18) == word_restored());
        }
        let b = occurs_at(&body, p, &drained);
        if b {
            assert(body@.subrange(p as int, p + 17) == word_drained());
        }
        if (a && tail_at(&body, p + 18)) || (b && tail_at(&body, p + 17)) {
            proof {
                let bd = line_body(chars@)->0;
                assert(bd == body@);
                assert(resource_at(bd, p as int));
                assert(exists|j: int| min <= j && #[trigger] resource_at(bd, j));
            }
            return true;
        }
        p = p + 1;
    }
    assert forall|j: int| min <= j implies !#[trigger] resource_at(body@, j) by {
        if j >= body.len() {
            assert(!has_at(body@, j, word_restored()));
            assert(!has_at(body@, j, word_drained()));
        }
    }
    false
}

fn self_resource(chars: &Vec<char>) -> (r: bool)
    ensures
        r == is_self_resource(chars@),
{
    let body = match body_of(chars) {
        Some(b) => b,
        None => {
            return false;
        },
    };
    let your = vec!['Y', 'o', 'u', 'r', ' '];
    assert(your@ =~= word_your());
    occurs_at(&body, 0, &your) && resource_from(chars, 6)
}

/// Which grammar a payload follows, trying food, resource, self-resource,
/// damage and healing in that order.
pub fn classify(row: &str) -> (r: LineKind)
    ensures
        r == line_kind(row@),
{
    let chars = crate::text::chars_of(row);
    if food(&chars) {
        return LineKind::Food;
    }
    if resource_from(&chars, 1) {
        return LineKind::Resource;
    }
    if self_resource(&chars) {
        return LineKind::SelfResource;
    }
    // The grammars do not look at the time; any will do.
    let any_time = crate::stamp::Stamp { secs: 0, nanos: 0 };
    match crate::dps::read_damage(row, any_time) {
        crate::grammar::LineRead::NoMatch => {},
        _ => {
            return LineKind::Damage;
        },
    }
    match crate::heal::read_heal(row, any_time) {
        crate::grammar::LineRead::NoMatch => {},
        _ => {
            return LineKind::Heal;
        },
    }
    LineKind::Unrecognized
}

} // verus!
