//! Requirements of a caller: conditions on named values.

use crate::db::TeleportRequirement;
use crate::text::{same, trim};
use vstd::prelude::*;
#[allow(unused_imports)]
use crate::text::trimmed;

verus! {

/// A number, kept as an integer that compares as the number does. What is not a number
/// compares with nothing, not even with itself.
#[derive(Debug, Clone, Copy, PartialEq, Eq, Structural)]
pub enum Num {
    Nan,
    Key(i64),
}

/// A value that a caller gives: as a number, where it is or spells one, and as text, where it
/// is neither a list nor an object.
#[derive(Debug, Clone)]
pub struct CallerValue {
    pub number: Option<Num>,
    pub text: Option<String>,
}

/// A named value that a caller gives.
#[derive(Debug, Clone)]
pub struct RequirementKV {
    pub key: String,
    pub value: CallerValue,
}

/// What a comparison of two numbers says; `None` for what is not a number.
pub open spec fn order_of(a: Num, b: Num) -> Option<int> {
    match (a, b) {
        (Num::Key(x), Num::Key(y)) => Some(if x < y { -1int } else if x == y { 0int } else { 1int }),
        _ => None,
    }
}

/// Whether the caller's value meets `op` with the required one.
pub open spec fn meets(lhs: CallerValue, rhs: Seq<char>, rhs_number: Option<Num>, op: Seq<char>) -> bool {
    let numbers = lhs.number is Some && rhs_number is Some;
    let order = order_of(lhs.number->0, rhs_number->0);
    if op == "=="@ || op == "="@ {
        if numbers { order == Some(0int) } else { lhs.text is Some && lhs.text->0@ == trimmed(rhs) }
    } else if op == "!="@ {
        if numbers { order != Some(0int) } else { lhs.text is Some && lhs.text->0@ != trimmed(rhs) }
    } else if op == ">="@ {
        numbers && order is Some && order->0 >= 0
    } else if op == ">"@ {
        numbers && order is Some && order->0 > 0
    } else if op == "<="@ {
        numbers && order is Some && order->0 <= 0
    } else if op == "<"@ {
        numbers && order is Some && order->0 < 0
    } else {
        false
    }
}

/// Where the caller's last value for `key` stands.
pub open spec fn last_given(given: Seq<RequirementKV>, key: Seq<char>) -> Option<int>
    decreases given.len(),
{
    if given.len() == 0 {
        None
    } else if given.last().key@ == key {
        Some(given.len() - 1)
    } else {
        last_given(given.drop_last(), key)
    }
}

/// Whether the values `given` meet one condition. A condition without a key, a value or an
/// operator is never met, nor is one on a key that is not given.
pub open spec fn condition_met(given: Seq<RequirementKV>, r: TeleportRequirement) -> bool {
    match (r.key, r.value, r.comparison) {
        (Some(k), Some(v), Some(op)) => k@.len() > 0 && op@.len() > 0 && match last_given(given, k@) {
            Some(i) => meets(given[i].value, v@, r.number, trimmed(op@)),
            None => false,
        },
        _ => false,
    }
}

fn compare(a: Num, b: Num) -> (r: Option<i8>)
    ensures
        match order_of(a, b) {
            Some(o) => r is Some && r->0 == o,
            None => r is None,
        },
{
    match (a, b) {
        (Num::Key(x), Num::Key(y)) => Some(
            if x < y {
                -1
            } else if x == y {
                0
            } else {
                1
            },
        ),
        _ => None,
    }
}

/// Whether the caller's value meets `op` with the required one.
pub fn eval(lhs: &CallerValue, rhs: &str, rhs_number: Option<Num>, op: &str) -> (r: bool)
    ensures
        r == meets(*lhs, rhs@, rhs_number, op@),
{
    let order: Option<Option<i8>> = match (lhs.number, rhs_number) {
        (Some(a), Some(b)) => Some(compare(a, b)),
        _ => None,
    };
    if same(op, "==") || same(op, "=") {
        match order {
            Some(o) => match o {
                Some(x) => x == 0,
                None => false,
            },
            None => match &lhs.text {
                Some(t) => same(t.as_str(), trim(rhs)),
                None => false,
            },
        }
    } else if same(op, "!=") {
        match order {
            Some(o) => match o {
                Some(x) => x != 0,
                None => true,
            },
            None => match &lhs.text {
                Some(t) => !same(t.as_str(), trim(rhs)),
                None => false,
            },
        }
    } else {
        let o: Option<i8> = match order {
            Some(o) => o,
            None => None,
        };
        match o {
            None => false,
            Some(x) => if same(op, ">=") {
                x >= 0
            } else if same(op, ">") {
                x > 0
            } else if same(op, "<=") {
                x <= 0
            } else if same(op, "<") {
                x < 0
            } else {
                false
            },
        }
    }
}

/// Tests conditions against the values that a caller gave. Of two values with one key the
/// later one counts.
#[derive(Debug, Clone)]
pub struct RequirementEvaluator {
    caller: Vec<RequirementKV>,
}

impl View for RequirementEvaluator {
    type V = Seq<RequirementKV>;

    closed spec fn view(&self) -> Seq<RequirementKV> {
        self.caller@
    }
}

impl RequirementEvaluator {
    pub fn new(caller_requirements: Vec<RequirementKV>) -> (r: Self)
        ensures
            r@ == caller_requirements@,
    {
        RequirementEvaluator { caller: caller_requirements }
    }

    /// Whether every condition is met.
    pub fn satisfies_all(&self, db_reqs: &[TeleportRequirement]) -> (r: bool)
        ensures
            r == forall|i: int| 0 <= i < db_reqs@.len() ==> condition_met(self@, #[trigger] db_reqs@[i]),
    {
        let mut i: usize = 0;
        while i < db_reqs.len()
            invariant
                i <= db_reqs@.len(),
                forall|k: int| 0 <= k < i ==> condition_met(self@, #[trigger] db_reqs@[k]),
            decreases db_reqs@.len() - i,
        {
            if !self.satisfies_one(&db_reqs[i]) {
                assert(!condition_met(self@, db_reqs@[i as int]));
                return false;
            }
            i += 1;
        }
        true
    }

    /// Whether one condition is met.
    pub fn satisfies_one(&self, r: &TeleportRequirement) -> (met: bool)
        ensures
            met == condition_met(self@, *r),
    {
        let key: &String = match &r.key {
            Some(k) => k,
            None => {
                return false;
            },
        };
        let value: &String = match &r.value {
            Some(v) => v,
            None => {
                return false;
            },
        };
        let op: &String = match &r.comparison {
            Some(op) => op,
            None => {
                return false;
            },
        };
        if same(key.as_str(), "") || same(op.as_str(), "") {
            proof {
                reveal_strlit("");
            }
            return false;
        }
        proof {
            reveal_strlit("");
            assert(key@.len() > 0) by {
                if key@.len() == 0 {
                    assert(key@ =~= ""@);
                }
            }
            assert(op@.len() > 0) by {
                if op@.len() == 0 {
                    assert(op@ =~= ""@);
                }
            }
        }
        let mut i: usize = self.caller.len();
        assert(self.caller@.take(i as int) =~= self.caller@);
        while i > 0
            invariant
                i <= self.caller@.len(),
                last_given(self.caller@, key@) == last_given(self.caller@.take(i as int), key@),
                r.key == Some(*key),
                r.value == Some(*value),
                r.comparison == Some(*op),
                key@.len() > 0,
                op@.len() > 0,
            decreases i,
        {
            i -= 1;
            assert(self.caller@.take(i + 1).drop_last() =~= self.caller@.take(i as int));
            if same(self.caller[i].key.as_str(), key.as_str()) {
                assert(last_given(self.caller@, key@) == Some(i as int));
                return eval(&self.caller[i].value, value.as_str(), r.number, trim(op.as_str()));
            }
        }
        false
    }
}

/// Of two values with one key the later one counts, and a value says nothing of other keys.
pub proof fn law_later_values_count(given: Seq<RequirementKV>, kv: RequirementKV, r: TeleportRequirement)
    requires
        r.key is Some,
    ensures
        r.key->0@ == kv.key@ ==> condition_met(given.push(kv), r) == condition_met(seq![kv], r),
        r.key->0@ != kv.key@ ==> condition_met(given.push(kv), r) == condition_met(given, r),
{
    let k = r.key->0@;
    let more = given.push(kv);
    assert(more.last() == kv);
    assert(more.drop_last() =~= given);
    assert(seq![kv].last() == kv);
    lemma_last_given(given, k);
}

proof fn lemma_last_given(given: Seq<RequirementKV>, key: Seq<char>)
    ensures
        last_given(given, key) is Some ==> 0 <= last_given(given, key)->0 < given.len(),
    decreases given.len(),
{
    if given.len() > 0 {
        lemma_last_given(given.drop_last(), key);
    }
}

proof fn lemma_operators_differ()
    ensures
        "=="@ != "!="@ && "=="@ != ">="@ && "=="@ != ">"@ && "=="@ != "<="@ && "=="@ != "<"@,
        "="@ != "!="@ && "="@ != ">="@ && "="@ != ">"@ && "="@ != "<="@ && "="@ != "<"@,
        "!="@ != ">="@ && "!="@ != ">"@ && "!="@ != "<="@ && "!="@ != "<"@,
        ">="@ != ">"@ && ">="@ != "<="@ && ">="@ != "<"@,
        ">"@ != "<="@ && ">"@ != "<"@ && "<="@ != "<"@,
{
    reveal_strlit("==");
    reveal_strlit("=");
    reveal_strlit("!=");
    reveal_strlit(">=");
    reveal_strlit(">");
    reveal_strlit("<=");
    reveal_strlit("<");
    assert("=="@[0] == '=' && "="@[0] == '=' && "!="@[0] == '!' && ">="@[0] == '>' && ">"@[0] == '>' && "<="@[0] == '<'
        && "<"@[0] == '<');
    assert(">="@.len() == 2 && ">"@.len() == 1 && "<="@.len() == 2 && "<"@.len() == 1);
}

/// Two numbers are compared as numbers: each comparison is met exactly where it holds of their keys.
pub proof fn law_numbers_compare(lhs: CallerValue, rhs: Seq<char>, a: i64, b: i64)
    requires
        lhs.number == Some(Num::Key(a)),
    ensures
        meets(lhs, rhs, Some(Num::Key(b)), "=="@) <==> a == b,
        meets(lhs, rhs, Some(Num::Key(b)), "="@) <==> a == b,
        meets(lhs, rhs, Some(Num::Key(b)), "!="@) <==> a != b,
        meets(lhs, rhs, Some(Num::Key(b)), ">="@) <==> a >= b,
        meets(lhs, rhs, Some(Num::Key(b)), ">"@) <==> a > b,
        meets(lhs, rhs, Some(Num::Key(b)), "<="@) <==> a <= b,
        meets(lhs, rhs, Some(Num::Key(b)), "<"@) <==> a < b,
{
    lemma_operators_differ();
}

/// Of two numbers `>=` is met exactly where `<` is not, `>` exactly where `<=` is not, and `>=` exactly
/// where `>` or `==` is; `!=` exactly where `==` is not.
pub proof fn law_comparisons_agree(lhs: CallerValue, rhs: Seq<char>, a: i64, b: i64)
    requires
        lhs.number == Some(Num::Key(a)),
    ensures
        meets(lhs, rhs, Some(Num::Key(b)), ">="@) == !meets(lhs, rhs, Some(Num::Key(b)), "<"@),
        meets(lhs, rhs, Some(Num::Key(b)), ">"@) == !meets(lhs, rhs, Some(Num::Key(b)), "<="@),
        meets(lhs, rhs, Some(Num::Key(b)), "!="@) == !meets(lhs, rhs, Some(Num::Key(b)), "=="@),
        meets(lhs, rhs, Some(Num::Key(b)), ">="@) == (meets(lhs, rhs, Some(Num::Key(b)), ">"@) || meets(
            lhs,
            rhs,
            Some(Num::Key(b)),
            "=="@,
        )),
        meets(lhs, rhs, Some(Num::Key(b)), "<="@) == (meets(lhs, rhs, Some(Num::Key(b)), "<"@) || meets(
            lhs,
            rhs,
            Some(Num::Key(b)),
            "=="@,
        )),
{
    law_numbers_compare(lhs, rhs, a, b);
}

/// A value that meets a higher threshold meets a lower one, and a value below a threshold does not meet
/// it.
pub proof fn law_thresholds(lhs: CallerValue, rhs: Seq<char>, a: i64, b: i64, c: i64)
    requires
        lhs.number == Some(Num::Key(a)),
        b <= c,
    ensures
        meets(lhs, rhs, Some(Num::Key(c)), ">="@) ==> meets(lhs, rhs, Some(Num::Key(b)), ">="@),
        meets(lhs, rhs, Some(Num::Key(c)), ">"@) ==> meets(lhs, rhs, Some(Num::Key(b)), ">"@),
        meets(lhs, rhs, Some(Num::Key(b)), "<="@) ==> meets(lhs, rhs, Some(Num::Key(c)), "<="@),
        meets(lhs, rhs, Some(Num::Key(b)), "<"@) ==> meets(lhs, rhs, Some(Num::Key(c)), "<"@),
        a < b ==> !meets(lhs, rhs, Some(Num::Key(b)), ">="@) && !meets(lhs, rhs, Some(Num::Key(c)), ">="@),
{
    law_numbers_compare(lhs, rhs, a, b);
    law_numbers_compare(lhs, rhs, a, c);
}

/// Where one side is no number though both are given as one, only `!=` is met.
pub proof fn law_no_number_is_only_unlike(lhs: CallerValue, rhs: Seq<char>, n: Num, op: Seq<char>)
    requires
        lhs.number is Some,
        lhs.number == Some(Num::Nan) || n == Num::Nan,
    ensures
        meets(lhs, rhs, Some(n), op) <==> op == "!="@,
{
    lemma_operators_differ();
}

/// Where one side is not given as a number, the texts are compared, the required one without the white
/// space around it: they are alike or not, and neither is more than the other.
pub proof fn law_texts_compare(lhs: CallerValue, rhs: Seq<char>, n: Option<Num>, op: Seq<char>)
    requires
        lhs.number is None || n is None,
    ensures
        meets(lhs, rhs, n, op) ==> lhs.text is Some && (op == "=="@ || op == "="@ || op == "!="@),
        lhs.text is Some ==> (meets(lhs, rhs, n, "=="@) <==> lhs.text->0@ == trimmed(rhs)),
        lhs.text is Some ==> (meets(lhs, rhs, n, "="@) <==> lhs.text->0@ == trimmed(rhs)),
        lhs.text is Some ==> (meets(lhs, rhs, n, "!="@) <==> lhs.text->0@ != trimmed(rhs)),
{
    lemma_operators_differ();
}

/// What is no comparison is never met.
pub proof fn law_unknown_comparisons_fail(lhs: CallerValue, rhs: Seq<char>, n: Option<Num>, op: Seq<char>)
    requires
        op != "=="@ && op != "="@ && op != "!="@ && op != ">="@ && op != ">"@ && op != "<="@ && op != "<"@,
    ensures
        !meets(lhs, rhs, n, op),
{
}

/// A condition is met exactly where it has a key, a value and a comparison, and the value that the
/// caller gave last under its key meets it.
pub proof fn law_conditions_ask_the_last_value(given: Seq<RequirementKV>, r: TeleportRequirement)
    ensures
        condition_met(given, r) <==> r.key is Some && r.value is Some && r.comparison is Some && r.key->0@.len() > 0
            && r.comparison->0@.len() > 0 && exists|i: int|
            0 <= i < given.len() && (#[trigger] given[i]).key@ == r.key->0@ && (forall|j: int|
                i < j < given.len() ==> (#[trigger] given[j]).key@ != r.key->0@) && meets(
                given[i].value,
                r.value->0@,
                r.number,
                trimmed(r.comparison->0@),
            ),
{
    if r.key is Some {
        lemma_last_is_last(given, r.key->0@);
        if let Some(i) = last_given(given, r.key->0@) {
            assert(given[i].key@ == r.key->0@);
        }
    }
}

proof fn lemma_last_is_last(given: Seq<RequirementKV>, key: Seq<char>)
    ensures
        match last_given(given, key) {
            Some(i) => 0 <= i < given.len() && given[i].key@ == key && forall|j: int|
                i < j < given.len() ==> (#[trigger] given[j]).key@ != key,
            None => forall|j: int| 0 <= j < given.len() ==> (#[trigger] given[j]).key@ != key,
        },
    decreases given.len(),
{
    if given.len() > 0 {
        let short = given.drop_last();
        lemma_last_is_last(short, key);
        if given.last().key@ != key {
            let m: int = match last_given(short, key) {
                Some(i) => i,
                None => -1,
            };
            assert forall|j: int| m < j < given.len() implies (#[trigger] given[j]).key@ != key by {
                if j < short.len() {
                    assert(short[j].key@ != key);
                }
            }
        }
    }
}

}
