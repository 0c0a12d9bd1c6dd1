use vstd::prelude::*;
use super::spec::{
    Json, Tok, JsonError, Found, parse_value, parse_elements, parse_members, insert_member, tok_at,
};
use super::lexing::max_int;
use super::roundtrip::{keys_distinct, unique_keys, unique_keys_elements, unique_keys_members};

verus! {

/// Parsing a value moves the cursor forward, by at most two positions past
/// the end of the tokens.
pub proof fn lemma_parse_value_bounds(t: Seq<Tok>, c: int)
    requires
        0 <= c,
    ensures
        c < parse_value(t, c).1 <= max_int(c, t.len() as int) + 2,
        parse_value(t, c).0 is Ok ==> parse_value(t, c).1 <= t.len(),
    decreases t.len() - c, 0int,
{
    if c < t.len() {
        let c1 = c + 1;
        match t[c] {
            Tok::LBracket => {
                if !(c1 < t.len() && t[c1] == Tok::RBracket) {
                    lemma_parse_elements_bounds(t, c1, Seq::empty());
                }
            },
            Tok::LBrace => {
                if !(c1 < t.len() && t[c1] == Tok::RBrace) {
                    lemma_parse_members_bounds(t, c1, Seq::empty());
                }
            },
            _ => {},
        }
    }
}

/// Parsing array elements moves the cursor forward, within bounds.
pub proof fn lemma_parse_elements_bounds(t: Seq<Tok>, c: int, items: Seq<Json>)
    requires
        0 <= c,
    ensures
        c < parse_elements(t, c, items).1 <= max_int(c, t.len() as int) + 2,
        parse_elements(t, c, items).0 is Ok ==> parse_elements(t, c, items).1 <= t.len(),
    decreases t.len() - c, 1int,
{
    if c < t.len() {
        lemma_parse_value_bounds(t, c);
        let (r, c2) = parse_value(t, c);
        if r is Ok && c2 > c && c2 < t.len() && t[c2] == Tok::Comma {
            lemma_parse_elements_bounds(t, c2 + 1, items.push(r->Ok_0));
        }
    }
}

/// Parsing object members moves the cursor forward, within bounds.
pub proof fn lemma_parse_members_bounds(t: Seq<Tok>, c: int, m: Seq<(Seq<char>, Json)>)
    requires
        0 <= c,
    ensures
        c < parse_members(t, c, m).1 <= max_int(c, t.len() as int) + 2,
        parse_members(t, c, m).0 is Ok ==> parse_members(t, c, m).1 <= t.len(),
    decreases t.len() - c, 1int,
{
    if c < t.len() && t[c] is Str {
        let c1 = c + 1;
        if c1 < t.len() && t[c1] == Tok::Colon {
            lemma_parse_value_bounds(t, c1 + 1);
            let (r, c3) = parse_value(t, c1 + 1);
            if r is Ok && c3 > c && c3 < t.len() && t[c3] == Tok::Comma {
                lemma_parse_members_bounds(t, c3 + 1, insert_member(m, t[c]->Str_0, r->Ok_0));
            }
        }
    }
}

/// Inserting binds the key at the first member that has it, or appends.
pub proof fn lemma_insert_member(m: Seq<(Seq<char>, Json)>, key: Seq<char>, val: Json, i: int)
    requires
        0 <= i <= m.len(),
        forall|k: int| 0 <= k < i ==> m[k].0 != key,
        i < m.len() ==> m[i].0 == key,
    ensures
        insert_member(m, key, val) == (if i < m.len() {
            m.update(i, (key, val))
        } else {
            m.push((key, val))
        }),
    decreases m.len(),
{
    if m.len() > 0 && i > 0 {
        lemma_insert_member(m.drop_first(), key, val, i - 1);
        if i < m.len() {
            assert(seq![m[0]] + m.drop_first().update(i - 1, (key, val)) =~= m.update(i, (key, val)));
        } else {
            assert(seq![m[0]] + m.drop_first().push((key, val)) =~= m.push((key, val)));
        }
    } else if m.len() == 0 {
        assert(seq![(key, val)] =~= m.push((key, val)));
    }
}

/// Appending a value whose objects have distinct keys keeps that true of
/// all elements.
proof fn lemma_unique_push(items: Seq<Json>, v: Json)
    requires
        unique_keys_elements(items),
        unique_keys(v),
    ensures
        unique_keys_elements(items.push(v)),
    decreases items.len(),
{
    let pushed = items.push(v);
    if items.len() == 0 {
        assert(pushed.drop_first() =~= Seq::<Json>::empty());
        assert(unique_keys_elements(pushed.drop_first()));
        assert(pushed[0] == v);
    } else {
        lemma_unique_push(items.drop_first(), v);
        assert(pushed.drop_first() =~= items.drop_first().push(v));
        assert(pushed[0] == items[0]);
    }
}

/// A key that is neither the inserted one nor one of `m`'s is not a key
/// after inserting.
proof fn lemma_insert_keys(m: Seq<(Seq<char>, Json)>, key: Seq<char>, v: Json, other: Seq<char>)
    requires
        other != key,
        forall|j: int| 0 <= j < m.len() ==> m[j].0 != other,
    ensures
        forall|k: int| 0 <= k < insert_member(m, key, v).len() ==> insert_member(m, key, v)[k].0
            != other,
    decreases m.len(),
{
    if m.len() > 0 && m[0].0 != key {
        lemma_insert_keys(m.drop_first(), key, v, other);
        let r = insert_member(m, key, v);
        let r1 = insert_member(m.drop_first(), key, v);
        assert forall|k: int| 0 <= k < r.len() implies r[k].0 != other by {
            if k > 0 {
                assert(r[k] == r1[k - 1]);
            }
        }
    }
}

/// Inserting keeps an object's keys distinct, and its values' objects too.
proof fn lemma_unique_insert(m: Seq<(Seq<char>, Json)>, key: Seq<char>, v: Json)
    requires
        keys_distinct(m),
        unique_keys_members(m),
        unique_keys(v),
    ensures
        keys_distinct(insert_member(m, key, v)),
        unique_keys_members(insert_member(m, key, v)),
    decreases m.len(),
{
    let r = insert_member(m, key, v);
    if m.len() == 0 {
        assert(r.drop_first() =~= Seq::<(Seq<char>, Json)>::empty());
        assert(unique_keys_members(r.drop_first()));
        assert(r[0].1 == v);
    } else if m[0].0 == key {
        assert(r.drop_first() =~= m.drop_first());
        assert(r[0].1 == v);
        assert forall|a: int, b: int| 0 <= a < b < r.len() implies #[trigger] r[a].0 != #[trigger] r[b].0 by {
            assert(m[a].0 != m[b].0);
        }
    } else {
        let m1 = m.drop_first();
        let r1 = insert_member(m1, key, v);
        assert(keys_distinct(m1)) by {
            assert forall|a: int, b: int| 0 <= a < b < m1.len() implies #[trigger] m1[a].0
                != #[trigger] m1[b].0 by {
                assert(m[a + 1].0 != m[b + 1].0);
            }
        }
        lemma_unique_insert(m1, key, v);
        assert forall|j: int| 0 <= j < m1.len() implies m1[j].0 != m[0].0 by {
            assert(m[0].0 != m[j + 1].0);
        }
        lemma_insert_keys(m1, key, v, m[0].0);
        assert(r.drop_first() =~= r1);
        assert(r[0] == m[0]);
        assert forall|a: int, b: int| 0 <= a < b < r.len() implies #[trigger] r[a].0 != #[trigger] r[b].0 by {
            if a == 0 {
                assert(r[b] == r1[b - 1]);
            } else {
                assert(r[a] == r1[a - 1]);
                assert(r[b] == r1[b - 1]);
            }
        }
    }
}

/// Every object the parser builds has distinct keys: a repeated key
/// replaces the earlier value in place.
pub proof fn lemma_parse_unique_keys(t: Seq<Tok>, c: int)
    requires
        0 <= c,
    ensures
        parse_value(t, c).0 is Ok ==> unique_keys(parse_value(t, c).0->Ok_0),
    decreases t.len() - c, 0int,
{
    if c < t.len() {
        let c1 = c + 1;
        match t[c] {
            Tok::LBracket => {
                if !(c1 < t.len() && t[c1] == Tok::RBracket) {
                    lemma_parse_elements_unique(t, c1, Seq::empty());
                }
            },
            Tok::LBrace => {
                if !(c1 < t.len() && t[c1] == Tok::RBrace) {
                    lemma_parse_members_unique(t, c1, Seq::empty());
                }
            },
            _ => {},
        }
    }
}

proof fn lemma_parse_elements_unique(t: Seq<Tok>, c: int, items: Seq<Json>)
    requires
        0 <= c,
        unique_keys_elements(items),
    ensures
        parse_elements(t, c, items).0 is Ok ==> unique_keys(parse_elements(t, c, items).0->Ok_0),
    decreases t.len() - c, 1int,
{
    if c < t.len() {
        lemma_parse_value_bounds(t, c);
        lemma_parse_unique_keys(t, c);
        let (r, c2) = parse_value(t, c);
        if r is Ok {
            let items2 = items.push(r->Ok_0);
            lemma_unique_push(items, r->Ok_0);
            if c2 > c && c2 < t.len() && t[c2] == Tok::Comma {
                lemma_parse_elements_unique(t, c2 + 1, items2);
            }
        }
    }
}

proof fn lemma_parse_members_unique(t: Seq<Tok>, c: int, m: Seq<(Seq<char>, Json)>)
    requires
        0 <= c,
        keys_distinct(m),
        unique_keys_members(m),
    ensures
        parse_members(t, c, m).0 is Ok ==> unique_keys(parse_members(t, c, m).0->Ok_0),
    decreases t.len() - c, 1int,
{
    if c < t.len() && t[c] is Str {
        let c1 = c + 1;
        if c1 < t.len() && t[c1] == Tok::Colon {
            lemma_parse_value_bounds(t, c1 + 1);
            lemma_parse_unique_keys(t, c1 + 1);
            let (r, c3) = parse_value(t, c1 + 1);
            if r is Ok {
                let m2 = insert_member(m, t[c]->Str_0, r->Ok_0);
                lemma_unique_insert(m, t[c]->Str_0, r->Ok_0);
                if c3 > c && c3 < t.len() && t[c3] == Tok::Comma {
                    lemma_parse_members_unique(t, c3 + 1, m2);
                }
            }
        }
    }
}

/// What an error reports is where the parser went wrong: an unexpected
/// token is the token just before the reported position; after a key not
/// followed by a colon, the reported position is two past the token that
/// should have been the colon, which came right after a string key, and
/// the token reported is the one after it, if any.
pub open spec fn error_points_at(t: Seq<Tok>, r: Result<Json, JsonError>) -> bool {
    match r {
        Err(JsonError::Unexpected(Found::Token(tok), pos)) => 1 <= pos <= t.len() && t[pos - 1]
            == tok,
        Err(JsonError::Unexpected(Found::Next(next), pos)) => {
            &&& 3 <= pos
            &&& t[pos - 3] is Str
            &&& (pos - 2 >= t.len() || t[pos - 2] != Tok::Colon)
            &&& next == tok_at(t, pos - 1)
        },
        _ => true,
    }
}

/// Every error the parser reports points at the tokens as described by
/// `error_points_at`.
pub proof fn lemma_parse_error_position(t: Seq<Tok>, c: int)
    requires
        0 <= c,
    ensures
        error_points_at(t, parse_value(t, c).0),
    decreases t.len() - c, 0int,
{
    if c < t.len() {
        let c1 = c + 1;
        match t[c] {
            Tok::LBracket => {
                if !(c1 < t.len() && t[c1] == Tok::RBracket) {
                    lemma_parse_elements_error_position(t, c1, Seq::empty());
                }
            },
            Tok::LBrace => {
                if !(c1 < t.len() && t[c1] == Tok::RBrace) {
                    lemma_parse_members_error_position(t, c1, Seq::empty());
                }
            },
            _ => {},
        }
    }
}

proof fn lemma_parse_elements_error_position(t: Seq<Tok>, c: int, items: Seq<Json>)
    requires
        0 <= c,
    ensures
        error_points_at(t, parse_elements(t, c, items).0),
    decreases t.len() - c, 1int,
{
    if c < t.len() {
        lemma_parse_value_bounds(t, c);
        lemma_parse_error_position(t, c);
        let (r, c2) = parse_value(t, c);
        if r is Ok && c2 > c && c2 < t.len() && t[c2] == Tok::Comma {
            lemma_parse_elements_error_position(t, c2 + 1, items.push(r->Ok_0));
        }
    }
}

proof fn lemma_parse_members_error_position(t: Seq<Tok>, c: int, m: Seq<(Seq<char>, Json)>)
    requires
        0 <= c,
    ensures
        error_points_at(t, parse_members(t, c, m).0),
    decreases t.len() - c, 1int,
{
    if c < t.len() && t[c] is Str {
        let c1 = c + 1;
        if c1 < t.len() && t[c1] == Tok::Colon {
            lemma_parse_value_bounds(t, c1 + 1);
            lemma_parse_error_position(t, c1 + 1);
            let (r, c3) = parse_value(t, c1 + 1);
            if r is Ok && c3 > c && c3 < t.len() && t[c3] == Tok::Comma {
                lemma_parse_members_error_position(t, c3 + 1, insert_member(m, t[c]->Str_0, r->Ok_0));
            }
        }
    }
}

} // verus!
