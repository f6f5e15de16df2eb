//! Stored tile paths.

use crate::json::{parse_json, Json};
use crate::models::Tile;
use vstd::prelude::*;
#[allow(unused_imports)]
use crate::planner::micro_astar::seq_of;
#[allow(unused_imports)]
use crate::json::{array_view, lemma_array_view, member, parsed_json, JsonV};

verus! {

/// Reads a stored path. Of a decoder that does not tell what it reads, nothing is known but that it
/// gives a path or none.
pub trait PathBlobDecoder {
    /// Whether the decoder tells what it reads.
    open spec fn tells(&self) -> bool {
        false
    }

    /// The path that a decoder that tells what it reads finds in a blob.
    open spec fn reads(&self, blob: Seq<u8>) -> Option<Seq<Tile>> {
        None
    }

    fn decode(&self, blob: &[u8]) -> (r: Option<Vec<Tile>>)
        ensures
            self.tells() ==> seq_of(r) == self.reads(blob@),
    ;
}

/// Reads paths written as JSON: a list of `[x, y, plane]` lists, or of objects with the members
/// `x`, `y` and `plane`.
pub struct JsonPathBlobDecoder;

/// The number of an integer value that fits in `i64`.
pub open spec fn integer(v: JsonV) -> Option<i64> {
    match v {
        JsonV::Num(n) => if i64::MIN <= n <= i64::MAX { Some(n as i64) } else { None },
        _ => None,
    }
}

/// The tile that a list of three integers spells.
pub open spec fn listed_tile(v: JsonV) -> Option<Tile> {
    match v {
        JsonV::Arr(a) => if a.len() == 3 {
            match (integer(a[0]), integer(a[1]), integer(a[2])) {
                (Some(x), Some(y), Some(p)) => if i32::MIN <= x <= i32::MAX && i32::MIN <= y <= i32::MAX && i32::MIN <= p
                    <= i32::MAX { Some(Tile { x: x as i32, y: y as i32, plane: p as i32 }) } else { None },
                _ => None,
            }
        } else {
            None
        },
        _ => None,
    }
}

/// The tile that an object's members spell, each cut to 32 bits.
pub open spec fn named_tile(v: JsonV) -> Option<Tile> {
    match (member(v, "x"@), member(v, "y"@), member(v, "plane"@)) {
        (Some(x), Some(y), Some(p)) => match (integer(x), integer(y), integer(p)) {
            (Some(x), Some(y), Some(p)) => Some(Tile { x: x as i32, y: y as i32, plane: p as i32 }),
            _ => None,
        },
        _ => None,
    }
}

/// The tiles that the elements spell, where each of them spells one.
pub open spec fn all_tiles(a: Seq<JsonV>, f: spec_fn(JsonV) -> Option<Tile>) -> Option<Seq<Tile>> {
    if forall|i: int| 0 <= i < a.len() ==> f(#[trigger] a[i]) is Some {
        Some(Seq::new(a.len(), |i: int| f(a[i])->0))
    } else {
        None
    }
}

/// The path that a JSON value spells.
pub open spec fn json_path(v: JsonV) -> Option<Seq<Tile>> {
    match v {
        JsonV::Arr(a) => match all_tiles(a, |e: JsonV| listed_tile(e)) {
            Some(p) => Some(p),
            None => all_tiles(a, |e: JsonV| named_tile(e)),
        },
        _ => None,
    }
}

fn read_listed(v: &Json) -> (r: Option<Tile>)
    ensures
        r == listed_tile(v@),
{
    let a: &Vec<Json> = match v.as_array() {
        Some(a) => a,
        None => {
            return None;
        },
    };
    proof {
        lemma_array_view(a@);
    }
    if a.len() != 3 {
        return None;
    }
    assert(array_view(a@)[0] == a@[0]@ && array_view(a@)[1] == a@[1]@ && array_view(a@)[2] == a@[2]@);
    match (a[0].as_i64(), a[1].as_i64(), a[2].as_i64()) {
        (Some(x), Some(y), Some(p)) => {
            if x >= i32::MIN as i64 && x <= i32::MAX as i64 && y >= i32::MIN as i64 && y <= i32::MAX as i64 && p
                >= i32::MIN as i64 && p <= i32::MAX as i64 {
                Some(Tile { x: x as i32, y: y as i32, plane: p as i32 })
            } else {
                None
            }
        },
        _ => None,
    }
}

fn read_member(v: &Json, key: &str) -> (r: Option<i64>)
    ensures
        r == match member(v@, key@) {
            Some(m) => integer(m),
            None => None::<i64>,
        },
{
    match v.get(key) {
        Some(m) => m.as_i64(),
        None => None,
    }
}

fn read_named(v: &Json) -> (r: Option<Tile>)
    ensures
        r == named_tile(v@),
{
    match (read_member(v, "x"), read_member(v, "y"), read_member(v, "plane")) {
        (Some(x), Some(y), Some(p)) => Some(Tile { x: x as i32, y: y as i32, plane: p as i32 }),
        _ => None,
    }
}

/// The path that a JSON value spells.
pub fn path_of_json(v: &Json) -> (r: Option<Vec<Tile>>)
    ensures
        match json_path(v@) {
            Some(p) => r is Some && r->0@ == p,
            None => r is None,
        },
{
    let a: &Vec<Json> = match v.as_array() {
        Some(a) => a,
        None => {
            return None;
        },
    };
    let ghost items = array_view(a@);
    proof {
        lemma_array_view(a@);
    }
    let ghost listed = |e: JsonV| listed_tile(e);
    let ghost named = |e: JsonV| named_tile(e);
    let mut out: Vec<Tile> = Vec::new();
    let mut i: usize = 0;
    let mut whole: bool = true;
    while i < a.len() && whole
        invariant
            i <= a@.len(),
            items == array_view(a@),
            items.len() == a@.len(),
            forall|k: int| 0 <= k < a@.len() ==> #[trigger] items[k] == a@[k]@,
            listed == (|e: JsonV| listed_tile(e)),
            whole ==> out@.len() == i && forall|k: int| 0 <= k < i ==> listed(#[trigger] items[k]) == Some(out@[k]),
            !whole ==> exists|k: int| 0 <= k < items.len() && listed(#[trigger] items[k]) is None,
        decreases a@.len() - i + (if whole { 1int } else { 0 }),
    {
        assert(items[i as int] == a@[i as int]@);
        match read_listed(&a[i]) {
            Some(t) => {
                out.push(t);
                i += 1;
            },
            None => {
                assert(listed(items[i as int]) is None);
                whole = false;
            },
        }
    }
    if whole {
        assert(out@ =~= Seq::new(items.len(), |k: int| listed(items[k])->0));
        return Some(out);
    }
    let mut out2: Vec<Tile> = Vec::new();
    let mut j: usize = 0;
    while j < a.len()
        invariant
            j <= a@.len(),
            v@ == JsonV::Arr(items),
            items == array_view(a@),
            items.len() == a@.len(),
            forall|k: int| 0 <= k < a@.len() ==> #[trigger] items[k] == a@[k]@,
            listed == (|e: JsonV| listed_tile(e)),
            named == (|e: JsonV| named_tile(e)),
            exists|k: int| 0 <= k < items.len() && listed(#[trigger] items[k]) is None,
            out2@.len() == j,
            forall|k: int| 0 <= k < j ==> named(#[trigger] items[k]) == Some(out2@[k]),
        decreases a@.len() - j,
    {
        assert(items[j as int] == a@[j as int]@);
        match read_named(&a[j]) {
            Some(t) => {
                out2.push(t);
            },
            None => {
                assert(named(items[j as int]) is None);
                return None;
            },
        }
        j += 1;
    }
    assert(out2@ =~= Seq::new(items.len(), |k: int| named(items[k])->0));
    Some(out2)
}

impl PathBlobDecoder for JsonPathBlobDecoder {
    open spec fn tells(&self) -> bool {
        true
    }

    open spec fn reads(&self, blob: Seq<u8>) -> Option<Seq<Tile>> {
        match parsed_json(blob) {
            Some(v) => json_path(v),
            None => None,
        }
    }

    fn decode(&self, blob: &[u8]) -> (r: Option<Vec<Tile>>) {
        match parse_json(blob) {
            Some(v) => path_of_json(&v),
            None => None,
        }
    }
}

/// The first path among the answers.
pub open spec fn first_path(answers: Seq<Option<Seq<Tile>>>) -> Option<Seq<Tile>>
    decreases answers.len(),
{
    if answers.len() == 0 {
        None
    } else {
        match answers[0] {
            Some(p) => Some(p),
            None => first_path(answers.skip(1)),
        }
    }
}

/// Whether the decoders may answer so: each that tells what it reads answers with that.
pub open spec fn may_answer(blob: Seq<u8>, decoders: Seq<&dyn PathBlobDecoder>, answers: Seq<Option<Seq<Tile>>>) -> bool {
    answers.len() == decoders.len() && forall|i: int|
        0 <= i < decoders.len() && decoders[i].tells() ==> #[trigger] answers[i] == decoders[i].reads(blob)
}

/// The first path that one of the decoders reads.
pub fn try_decode_with_decoders(blob: &[u8], decoders: &[&dyn PathBlobDecoder]) -> (r: Option<Vec<Tile>>)
    ensures
        exists|answers: Seq<Option<Seq<Tile>>>| #[trigger]
            may_answer(blob@, decoders@, answers) && seq_of(r) == first_path(answers),
{
    let ghost mut answers: Seq<Option<Seq<Tile>>> = Seq::new(decoders@.len(), |i: int| decoders@[i].reads(blob@));
    let mut i: usize = 0;
    assert(answers.skip(0) =~= answers);
    while i < decoders.len()
        invariant
            i <= decoders@.len(),
            may_answer(blob@, decoders@, answers),
            first_path(answers) == first_path(answers.skip(i as int)),
            forall|k: int| 0 <= k < i ==> #[trigger] answers[k] is None,
        decreases decoders@.len() - i,
    {
        let ghost before = answers;
        let path: Option<Vec<Tile>> = decoders[i].decode(blob);
        proof {
            answers = before.update(i as int, seq_of(path));
            lemma_first_path(answers, i as int);
            assert(answers.skip(i as int)[0] == answers[i as int]);
            assert(answers.skip(i as int).skip(1) =~= answers.skip(i + 1));
            assert(may_answer(blob@, decoders@, answers));
        }
        if path.is_some() {
            return path;
        }
        i += 1;
    }
    None
}

proof fn lemma_first_path(answers: Seq<Option<Seq<Tile>>>, i: int)
    requires
        0 <= i <= answers.len(),
        forall|k: int| 0 <= k < i ==> #[trigger] answers[k] is None,
    ensures
        first_path(answers) == first_path(answers.skip(i)),
    decreases i,
{
    if i > 0 {
        lemma_first_path(answers, i - 1);
        assert(answers.skip(i - 1)[0] == answers[i - 1]);
        assert(answers.skip(i - 1).skip(1) =~= answers.skip(i));
    } else {
        assert(answers.skip(0) =~= answers);
    }
}

/// Where every decoder tells what it reads, the path is the first that one of them reads.
pub proof fn law_told_decoders_decide(
    blob: Seq<u8>,
    decoders: Seq<&dyn PathBlobDecoder>,
    answers: Seq<Option<Seq<Tile>>>,
)
    requires
        forall|i: int| 0 <= i < decoders.len() ==> (#[trigger] decoders[i]).tells(),
        may_answer(blob, decoders, answers),
    ensures
        first_path(answers) == first_path(Seq::new(decoders.len(), |i: int| decoders[i].reads(blob))),
{
    assert(answers =~= Seq::new(decoders.len(), |i: int| decoders[i].reads(blob)));
}

/// The path that a blob spells in JSON.
pub fn try_decode_default(blob: &[u8]) -> (r: Option<Vec<Tile>>)
    ensures
        match parsed_json(blob@) {
            Some(v) => match json_path(v) {
                Some(p) => r is Some && r->0@ == p,
                None => r is None,
            },
            None => r is None,
        },
{
    let json: JsonPathBlobDecoder = JsonPathBlobDecoder;
    json.decode(blob)
}

/// Whether the value is a list of the tile's three coordinates.
pub open spec fn lists_tile(v: JsonV, t: Tile) -> bool {
    v == JsonV::Arr(seq![JsonV::Num(t.x as int), JsonV::Num(t.y as int), JsonV::Num(t.plane as int)])
}

/// Whether the value names the tile's three coordinates, each of which counts in its lowest 32 bits.
pub open spec fn names_tile(v: JsonV, t: Tile) -> bool {
    exists|x: i64, y: i64, p: i64| #[trigger] names_numbers(v, x, y, p) && t == (Tile { x: x as i32, y: y as i32, plane: p as i32 })
}

pub open spec fn names_numbers(v: JsonV, x: i64, y: i64, p: i64) -> bool {
    member(v, "x"@) == Some(JsonV::Num(x as int)) && member(v, "y"@) == Some(JsonV::Num(y as int)) && member(v, "plane"@) == Some(
        JsonV::Num(p as int),
    )
}

proof fn lemma_listed(v: JsonV, t: Tile)
    ensures
        listed_tile(v) == Some(t) <==> lists_tile(v, t),
{
    if listed_tile(v) == Some(t) {
        let a = v->Arr_0;
        assert(a =~= seq![JsonV::Num(t.x as int), JsonV::Num(t.y as int), JsonV::Num(t.plane as int)]);
    }
    if lists_tile(v, t) {
        let a = v->Arr_0;
        assert(a[0] == JsonV::Num(t.x as int) && a[1] == JsonV::Num(t.y as int) && a[2] == JsonV::Num(t.plane as int));
    }
}

proof fn lemma_named(v: JsonV, t: Tile)
    ensures
        named_tile(v) == Some(t) <==> names_tile(v, t),
{
    if named_tile(v) == Some(t) {
        let (x, y, p) = (integer(member(v, "x"@)->0)->0, integer(member(v, "y"@)->0)->0, integer(member(v, "plane"@)->0)->0);
        assert(names_numbers(v, x, y, p));
    }
    if names_tile(v, t) {
        let (x, y, p) = choose|x: i64, y: i64, p: i64| #[trigger]
            names_numbers(v, x, y, p) && t == (Tile { x: x as i32, y: y as i32, plane: p as i32 });
        assert(integer(JsonV::Num(x as int)) == Some(x));
        assert(integer(JsonV::Num(y as int)) == Some(y));
        assert(integer(JsonV::Num(p as int)) == Some(p));
    }
}

/// A JSON list spells a path where each of its elements lists a tile, or where each names one.
pub proof fn law_json_paths(a: Seq<JsonV>, path: Seq<Tile>)
    requires
        a.len() == path.len(),
        (forall|i: int| #![trigger a[i]] 0 <= i < a.len() ==> lists_tile(a[i], path[i])) || (forall|i: int|
            #![trigger a[i]]
            0 <= i < a.len() ==> names_tile(a[i], path[i])),
    ensures
        json_path(JsonV::Arr(a)) == Some(path),
{
    let (f, g) = (|e: JsonV| listed_tile(e), |e: JsonV| named_tile(e));
    if forall|i: int| #![trigger a[i]] 0 <= i < a.len() ==> lists_tile(a[i], path[i]) {
        assert forall|i: int| 0 <= i < a.len() implies f(#[trigger] a[i]) == Some(path[i]) by {
            lemma_listed(a[i], path[i]);
        }
        assert(all_tiles(a, f)->0 =~= path);
    } else {
        assert forall|i: int| 0 <= i < a.len() implies g(#[trigger] a[i]) == Some(path[i]) && f(a[i]) is None by {
            lemma_named(a[i], path[i]);
            assert(!(a[i] is Arr)) by {
                assert(names_tile(a[i], path[i]));
            }
        }
        let i = choose|i: int| #![trigger a[i]] 0 <= i < a.len() && !lists_tile(a[i], path[i]);
        assert(f(a[i]) is None);
        assert(all_tiles(a, g)->0 =~= path);
    }
}

/// Whatever spells a path is a JSON list with an element for each of its tiles, each of which lists its
/// tile, or each of which names it.
pub proof fn law_only_lists_spell_paths(v: JsonV)
    requires
        json_path(v) is Some,
    ensures
        v is Arr,
        v->Arr_0.len() == (json_path(v)->0).len(),
        (forall|i: int| #![trigger v->Arr_0[i]] 0 <= i < v->Arr_0.len() ==> lists_tile(v->Arr_0[i], (json_path(v)->0)[i])) || (
        forall|i: int| #![trigger v->Arr_0[i]] 0 <= i < v->Arr_0.len() ==> names_tile(v->Arr_0[i], (json_path(v)->0)[i])),
{
    let a = v->Arr_0;
    let path = json_path(v)->0;
    let (f, g) = (|e: JsonV| listed_tile(e), |e: JsonV| named_tile(e));
    if all_tiles(a, f) is Some {
        assert forall|i: int| #![trigger a[i]] 0 <= i < a.len() implies lists_tile(a[i], path[i]) by {
            assert(f(a[i]) is Some);
            lemma_listed(a[i], path[i]);
        }
    } else {
        assert forall|i: int| #![trigger a[i]] 0 <= i < a.len() implies names_tile(a[i], path[i]) by {
            assert(g(a[i]) is Some);
            lemma_named(a[i], path[i]);
        }
    }
}

/// Of several answers the first path counts, and there is none only where none of them is one.
pub proof fn law_first_path_counts(answers: Seq<Option<Seq<Tile>>>)
    ensures
        first_path(answers) is None <==> forall|i: int| 0 <= i < answers.len() ==> #[trigger] answers[i] is None,
        forall|i: int|
            0 <= i < answers.len() && #[trigger] answers[i] is Some && (forall|k: int|
                0 <= k < i ==> #[trigger] answers[k] is None) ==> first_path(answers) == answers[i],
    decreases answers.len(),
{
    if answers.len() > 0 {
        let rest = answers.skip(1);
        law_first_path_counts(rest);
        if answers[0] is None {
            assert forall|i: int|
                0 <= i < answers.len() && #[trigger] answers[i] is Some && (forall|k: int|
                    0 <= k < i ==> #[trigger] answers[k] is None) implies first_path(answers) == answers[i] by {
                assert(rest[i - 1] == answers[i]);
                assert forall|k: int| 0 <= k < i - 1 implies #[trigger] rest[k] is None by {
                    assert(answers[k + 1] is None);
                }
            }
            if first_path(rest) is None {
                assert forall|i: int| 0 <= i < answers.len() implies #[trigger] answers[i] is None by {
                    if i > 0 {
                        assert(rest[i - 1] is None);
                    }
                }
            }
            if forall|i: int| 0 <= i < answers.len() ==> #[trigger] answers[i] is None {
                assert forall|i: int| 0 <= i < rest.len() implies #[trigger] rest[i] is None by {
                    assert(answers[i + 1] is None);
                }
            }
        }
    }
}

}
