use vstd::prelude::*;
use super::spec::{
    Json, compact, compact_elements, compact_members, quoted, indent, pretty, pretty_elements,
    pretty_members, nesting, nesting_elements, nesting_members, join_commas, compact_member,
};

verus! {

/// Extending the printed prefix of an array by one element.
pub proof fn lemma_compact_elements_snoc(items: Seq<Json>, i: int)
    requires
        0 <= i < items.len(),
    ensures
        compact_elements(items.take(i + 1)) == compact_elements(items.take(i)) + (if i > 0 {
            seq![',']
        } else {
            Seq::empty()
        }) + compact(items[i]),
    decreases i,
{
    if i == 0 {
        assert(items.take(1) =~= seq![items[0]]);
        assert(items.take(0) =~= Seq::<Json>::empty());
    } else {
        let rest = items.drop_first();
        lemma_compact_elements_snoc(rest, i - 1);
        assert(items.take(i + 1).drop_first() =~= rest.take(i));
        assert(items.take(i).drop_first() =~= rest.take(i - 1));
        assert(items.take(i + 1)[0] == items[0]);
        assert(items.take(i)[0] == items[0]);
        assert(rest[i - 1] == items[i]);
    }
}

/// Extending the printed prefix of an object by one member.
pub proof fn lemma_compact_members_snoc(m: Seq<(Seq<char>, Json)>, i: int)
    requires
        0 <= i < m.len(),
    ensures
        compact_members(m.take(i + 1)) == compact_members(m.take(i)) + (if i > 0 {
            seq![',']
        } else {
            Seq::empty()
        }) + quoted(m[i].0) + seq![':'] + compact(m[i].1),
    decreases i,
{
    if i == 0 {
        assert(m.take(1) =~= seq![m[0]]);
        assert(m.take(0) =~= Seq::<(Seq<char>, Json)>::empty());
    } else {
        let rest = m.drop_first();
        lemma_compact_members_snoc(rest, i - 1);
        assert(m.take(i + 1).drop_first() =~= rest.take(i));
        assert(m.take(i).drop_first() =~= rest.take(i - 1));
        assert(m.take(i + 1)[0] == m[0]);
        assert(m.take(i)[0] == m[0]);
        assert(rest[i - 1] == m[i]);
    }
}

/// Extending the printed prefix of an indented array by one element.
pub proof fn lemma_pretty_elements_snoc(items: Seq<Json>, d: nat, i: int)
    requires
        0 <= i < items.len(),
    ensures
        pretty_elements(items.take(i + 1), d) == pretty_elements(items.take(i), d) + (if i > 0 {
            ",\n"@
        } else {
            Seq::empty()
        }) + indent(d) + pretty(items[i], d),
    decreases i,
{
    if i == 0 {
        assert(items.take(1) =~= seq![items[0]]);
        assert(items.take(0) =~= Seq::<Json>::empty());
    } else {
        let rest = items.drop_first();
        lemma_pretty_elements_snoc(rest, d, i - 1);
        assert(items.take(i + 1).drop_first() =~= rest.take(i));
        assert(items.take(i).drop_first() =~= rest.take(i - 1));
        assert(items.take(i + 1)[0] == items[0]);
        assert(items.take(i)[0] == items[0]);
        assert(rest[i - 1] == items[i]);
    }
}

/// Extending the printed prefix of an indented object by one member.
pub proof fn lemma_pretty_members_snoc(m: Seq<(Seq<char>, Json)>, d: nat, i: int)
    requires
        0 <= i < m.len(),
    ensures
        pretty_members(m.take(i + 1), d) == pretty_members(m.take(i), d) + (if i > 0 {
            ",\n"@
        } else {
            Seq::empty()
        }) + indent(d) + quoted(m[i].0) + ": "@ + pretty(m[i].1, d),
    decreases i,
{
    if i == 0 {
        assert(m.take(1) =~= seq![m[0]]);
        assert(m.take(0) =~= Seq::<(Seq<char>, Json)>::empty());
    } else {
        let rest = m.drop_first();
        lemma_pretty_members_snoc(rest, d, i - 1);
        assert(m.take(i + 1).drop_first() =~= rest.take(i));
        assert(m.take(i).drop_first() =~= rest.take(i - 1));
        assert(m.take(i + 1)[0] == m[0]);
        assert(m.take(i)[0] == m[0]);
        assert(rest[i - 1] == m[i]);
    }
}

/// Extending a comma-joined prefix by one part.
pub proof fn lemma_join_commas_snoc(parts: Seq<Seq<char>>, i: int)
    requires
        0 <= i < parts.len(),
    ensures
        join_commas(parts.take(i + 1)) == join_commas(parts.take(i)) + (if i > 0 {
            seq![',']
        } else {
            Seq::empty()
        }) + parts[i],
    decreases i,
{
    if i == 0 {
        assert(parts.take(1) =~= seq![parts[0]]);
        assert(parts.take(0) =~= Seq::<Seq<char>>::empty());
    } else {
        let rest = parts.drop_first();
        lemma_join_commas_snoc(rest, i - 1);
        assert(parts.take(i + 1).drop_first() =~= rest.take(i));
        assert(parts.take(i).drop_first() =~= rest.take(i - 1));
        assert(parts.take(i + 1)[0] == parts[0]);
        assert(parts.take(i)[0] == parts[0]);
        assert(rest[i - 1] == parts[i]);
    }
}

/// Array elements printed compactly are their texts joined by commas.
pub proof fn lemma_compact_elements_join(items: Seq<Json>)
    ensures
        compact_elements(items) == join_commas(items.map_values(|j: Json| compact(j))),
    decreases items.len(),
{
    let parts = items.map_values(|j: Json| compact(j));
    if items.len() > 1 {
        lemma_compact_elements_join(items.drop_first());
        assert(parts.drop_first() =~= items.drop_first().map_values(|j: Json| compact(j)));
    }
}

/// Object members printed compactly are their texts joined by commas.
pub proof fn lemma_compact_members_join(m: Seq<(Seq<char>, Json)>)
    ensures
        compact_members(m) == join_commas(
            m.map_values(|kv: (Seq<char>, Json)| compact_member(kv.0, kv.1)),
        ),
    decreases m.len(),
{
    let parts = m.map_values(|kv: (Seq<char>, Json)| compact_member(kv.0, kv.1));
    if m.len() > 1 {
        lemma_compact_members_join(m.drop_first());
        assert(parts.drop_first() =~= m.drop_first().map_values(
            |kv: (Seq<char>, Json)| compact_member(kv.0, kv.1),
        ));
    }
}

/// Every element nests no deeper than the deepest.
pub proof fn lemma_nesting_elements(items: Seq<Json>)
    ensures
        forall|k: int| 0 <= k < items.len() ==> nesting(#[trigger] items[k]) <= nesting_elements(items),
    decreases items.len(),
{
    if items.len() > 0 {
        lemma_nesting_elements(items.drop_first());
        assert forall|k: int| 0 <= k < items.len() implies nesting(#[trigger] items[k])
            <= nesting_elements(items) by {
            if k > 0 {
                assert(items[k] == items.drop_first()[k - 1]);
            }
        }
    }
}

/// Every member value nests no deeper than the deepest.
pub proof fn lemma_nesting_members(m: Seq<(Seq<char>, Json)>)
    ensures
        forall|k: int| 0 <= k < m.len() ==> nesting(#[trigger] m[k].1) <= nesting_members(m),
    decreases m.len(),
{
    if m.len() > 0 {
        lemma_nesting_members(m.drop_first());
        assert forall|k: int| 0 <= k < m.len() implies nesting(#[trigger] m[k].1)
            <= nesting_members(m) by {
            if k > 0 {
                assert(m[k] == m.drop_first()[k - 1]);
            }
        }
    }
}

/// `depth` levels of indentation.
pub fn indentation(depth: usize) -> (text: String)
    ensures
        text@ == indent(depth as nat),
{
    let mut text = String::new();
    let mut k: usize = 0;
    while k < depth
        invariant
            k <= depth,
            text@ == indent(k as nat),
        decreases depth - k,
    {
        text.append("  ");
        k = k + 1;
    }
    text
}

/// Texts joined by commas.
pub fn join_with_commas(parts: &Vec<String>) -> (text: String)
    ensures
        text@ == join_commas(parts@.map_values(|p: String| p@)),
{
    let ghost views = parts@.map_values(|p: String| p@);
    let mut text = String::new();
    for i in 0..parts.len()
        invariant
            views == parts@.map_values(|p: String| p@),
            text@ == join_commas(views.take(i as int)),
    {
        proof {
            lemma_join_commas_snoc(views, i as int);
            reveal_strlit(",");
        }
        if i > 0 {
            text.append(",");
        }
        text.append(parts[i].as_str());
        assert(text@ =~= join_commas(views.take(i + 1)));
    }
    assert(views.take(parts@.len() as int) =~= views);
    text
}

} // verus!
