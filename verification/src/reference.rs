//! A stored reference as the listing shows it, and the tag column it is read from.
use vstd::prelude::*;

use crate::text::{
    chars_of, count_until, find_from, join_with, lemma_count_until, lemma_count_until_is,
    split_on, string_of,
};

verus! {

/// A reference as listed: its id, its entry key, its title if it has one,
/// and its tags.
#[derive(Debug, Clone)]
pub struct Reference {
    pub id: String,
    pub key: String,
    pub title: Option<String>,
    pub tags: Vec<String>,
}

/// The tags held in a tag column: the pieces between its commas, and none
/// when the column is empty (`NULL`).
pub open spec fn tags_of_column(tags: Option<Seq<char>>) -> Seq<Seq<char>> {
    match tags {
        Some(t) => split_on(t, ','),
        None => Seq::empty(),
    }
}

pub open spec fn opt_view(o: Option<String>) -> Option<Seq<char>> {
    match o {
        Some(s) => Some(s@),
        None => None,
    }
}

/// The tags of a comma-separated tag column, in order.
pub fn split_tags(tags: Option<&str>) -> (r: Vec<String>)
    ensures
        r.deep_view() == tags_of_column(
            match tags {
                Some(t) => Some(t@),
                None => None,
            },
        ),
{
    match tags {
        None => {
            let r: Vec<String> = Vec::new();
            proof {
                assert(r.deep_view() =~= Seq::<Seq<char>>::empty());
            }
            r
        },
        Some(t) => {
            let v = chars_of(t);
            let n = v.len();
            let mut parts: Vec<String> = Vec::new();
            let mut pos: usize = 0;
            proof {
                assert(v@.skip(0) =~= v@);
                assert(parts.deep_view() =~= Seq::<Seq<char>>::empty());
                assert(parts.deep_view() + split_on(v@, ',') =~= split_on(v@, ','));
            }
            loop
                invariant_except_break
                    parts.deep_view() + split_on(v@.skip(pos as int), ',') == split_on(t@, ','),
                invariant
                    pos <= n == v.len(),
                    v@ == t@,
                ensures
                    parts.deep_view() == split_on(t@, ','),
                decreases n - pos,
            {
                let k = find_from(&v, pos, n, ',');
                let ghost s = v@.skip(pos as int);
                let ghost before = parts.deep_view();
                proof {
                    assert(s =~= v@.subrange(pos as int, n as int));
                    lemma_count_until(s, ',');
                }
                parts.push(string_of(&v, pos, k));
                if k >= n {
                    proof {
                        assert(split_on(s, ',') =~= seq![s]);
                        assert(parts.deep_view() =~= before.push(s));
                        assert(before + seq![s] =~= before.push(s));
                    }
                    break;
                }
                proof {
                    assert(s.take(k - pos) =~= v@.subrange(pos as int, k as int));
                    assert(s.skip(k - pos + 1) =~= v@.skip(k + 1));
                    assert(parts.deep_view() =~= before.push(v@.subrange(pos as int, k as int)));
                    assert(split_on(s, ',') == seq![s.take(k - pos)] + split_on(
                        v@.skip(k + 1),
                        ',',
                    ));
                    assert(before + split_on(s, ',') =~= parts.deep_view() + split_on(
                        v@.skip(k + 1),
                        ',',
                    ));
                }
                pos = k + 1;
            }
            parts
        },
    }
}

/// A reference made from a stored row: the id, the entry key, the title and
/// the comma-separated tag column.
pub fn reference_from_row(id: String, key: String, title: Option<String>, tags: Option<String>) -> (r:
    Reference)
    ensures
        r.id@ == id@,
        r.key@ == key@,
        opt_view(r.title) == opt_view(title),
        r.tags.deep_view() == tags_of_column(opt_view(tags)),
{
    let tags_vec = match &tags {
        Some(t) => split_tags(Some(t.as_str())),
        None => split_tags(None),
    };
    Reference { id, key, title, tags: tags_vec }
}

/// The row `(id, entry key, title, tag column)` that a reference is read from.
pub open spec fn is_read_from(
    r: Reference,
    row: (String, String, Option<String>, Option<String>),
) -> bool {
    &&& r.id@ == row.0@
    &&& r.key@ == row.1@
    &&& opt_view(r.title) == opt_view(row.2)
    &&& r.tags.deep_view() == tags_of_column(opt_view(row.3))
}

fn copy_opt(o: &Option<String>) -> (r: Option<String>)
    ensures
        opt_view(r) == opt_view(*o),
{
    match o {
        Some(s) => Some(s.clone()),
        None => None,
    }
}

/// The references read from stored rows, in order.
pub fn references_from_rows(rows: &Vec<(String, String, Option<String>, Option<String>)>) -> (r:
    Vec<Reference>)
    ensures
        r.len() == rows.len(),
        forall|i: int| 0 <= i < r.len() ==> is_read_from(#[trigger] r@[i], rows@[i]),
{
    let mut r: Vec<Reference> = Vec::new();
    let mut i: usize = 0;
    while i < rows.len()
        invariant
            i <= rows.len(),
            r.len() == i,
            forall|j: int| 0 <= j < i ==> is_read_from(#[trigger] r@[j], rows@[j]),
        decreases rows.len() - i,
    {
        let row = &rows[i];
        let reference = reference_from_row(
            row.0.clone(),
            row.1.clone(),
            copy_opt(&row.2),
            copy_opt(&row.3),
        );
        r.push(reference);
        i += 1;
    }
    r
}

/// Splitting a column on commas and joining the pieces with commas gives the
/// column back.
pub proof fn lemma_join_split_tags(s: Seq<char>)
    ensures
        join_with(split_on(s, ','), seq![',']) == s,
    decreases s.len(),
{
    let k = count_until(s, ',');
    lemma_count_until(s, ',');
    if k < s.len() {
        let rest = s.skip(k + 1int);
        lemma_join_split_tags(rest);
        let parts = split_on(s, ',');
        assert(parts.drop_first() =~= split_on(rest, ','));
        assert(split_on(rest, ',').len() >= 1);
        assert(s.take(k as int) + seq![','] + rest =~= s);
    }
}

/// Tags that hold no comma, stored joined with commas, are read back as the
/// same tags in the same order.
pub proof fn lemma_split_joined_tags(tags: Seq<Seq<char>>)
    requires
        tags.len() > 0,
        forall|i: int| 0 <= i < tags.len() ==> !(#[trigger] tags[i]).contains(','),
    ensures
        split_on(join_with(tags, seq![',']), ',') == tags,
    decreases tags.len(),
{
    let p0 = tags[0];
    assert(!p0.contains(','));
    if tags.len() == 1 {
        assert forall|j: int| 0 <= j < p0.len() implies p0[j] != ',' by {
            if p0[j] == ',' {
                assert(p0.contains(','));
            }
        }
        lemma_count_until_is(p0, ',', p0.len() as int);
        assert(split_on(p0, ',') =~= seq![p0]);
        assert(tags =~= seq![p0]);
    } else {
        let rest = tags.drop_first();
        assert forall|i: int| 0 <= i < rest.len() implies !(#[trigger] rest[i]).contains(',') by {
            assert(rest[i] == tags[i + 1]);
        }
        lemma_split_joined_tags(rest);
        let j = join_with(tags, seq![',']);
        assert(j == p0 + seq![','] + join_with(rest, seq![',']));
        assert forall|x: int| 0 <= x < p0.len() implies j[x] != ',' by {
            assert(j[x] == p0[x]);
            if p0[x] == ',' {
                assert(p0.contains(','));
            }
        }
        lemma_count_until_is(j, ',', p0.len() as int);
        assert(j.take(p0.len() as int) =~= p0);
        assert(j.skip(p0.len() + 1int) =~= join_with(rest, seq![',']));
        assert(tags =~= seq![p0] + rest);
    }
}

} // verus!
