//! Text search over rendered words and heading-anchor matching.
use vstd::prelude::*;
use crate::nodes::word::{Word, WordType, WordView, mark_view};
use crate::nodes::textcomponent::{flat, words_text, rows_view, row_view, lemma_words_text_step, lemma_words_text_concat, lemma_rows_ext, lemma_rows_view};

verus! {

broadcast use vstd::string::group_string_axioms;

/// `needle` occurs in `hay` starting at index `i`.
pub open spec fn occurs_at(hay: Seq<char>, needle: Seq<char>, i: int) -> bool {
    0 <= i && i + needle.len() <= hay.len() && hay.subrange(i, i + needle.len()) == needle
}

/// `needle` occurs somewhere in `hay`.
pub open spec fn seq_contains(hay: Seq<char>, needle: Seq<char>) -> bool {
    exists|i: int| occurs_at(hay, needle, i)
}

/// A word is a hit of a search when the (non-empty) search text occurs in it.
pub open spec fn is_hit(content: Seq<char>, search: Seq<char>) -> bool {
    search.len() > 0 && seq_contains(content, search)
}

/// What `find_and_mark` makes of one word: hits that are not selected yet become
/// `Selected`, remembering their kind; other words stay as they are.
pub open spec fn search_mark_view(v: WordView, search: Seq<char>) -> WordView {
    if is_hit(v.text, search) && v.kind != WordType::Selected {
        mark_view(v)
    } else {
        v
    }
}

/// Rows after marking the hits of `search`.
pub open spec fn search_rows(rows: Seq<Seq<WordView>>, search: Seq<char>) -> Seq<Seq<WordView>> {
    rows.map_values(|row: Seq<WordView>| row.map_values(|v: WordView| search_mark_view(v, search)))
}

/// The chars of a string, in a vector.
pub fn chars_of(s: &str) -> (v: Vec<char>)
    ensures
        v@ == s@,
{
    let ghost sv = s@;
    let mut v: Vec<char> = Vec::new();
    for c in it: s.chars()
        invariant
            it.seq() == sv,
            v@ == sv.take(it.index()),
    {
        v.push(c);
        proof {
            assert(v@ =~= sv.take(it.index() + 1));
        }
    }
    assert(sv.take(sv.len() as int) =~= sv);
    v
}

fn occurs_at_exec(hay: &Vec<char>, needle: &Vec<char>, i: usize) -> (b: bool)
    requires
        i + needle@.len() <= hay@.len(),
    ensures
        b == occurs_at(hay@, needle@, i as int),
{
    let hl = hay.len();
    let mut k: usize = 0;
    while k < needle.len()
        invariant
            i + needle@.len() <= hay@.len(),
            hl == hay@.len(),
            k <= needle@.len(),
            forall|j: int| 0 <= j < k ==> hay@[i + j] == needle@[j],
        decreases needle@.len() - k,
    {
        assert(i + k < hay@.len());
        if hay[i + k] != needle[k] {
            assert(hay@.subrange(i as int, i + needle@.len())[k as int] != needle@[k as int]);
            return false;
        }
        k = k + 1;
    }
    assert(hay@.subrange(i as int, i + needle@.len()) =~= needle@);
    true
}

/// Whether `needle` occurs in `hay`.
pub fn str_contains(hay: &str, needle: &str) -> (b: bool)
    ensures
        b == seq_contains(hay@, needle@),
{
    let h = chars_of(hay);
    let n = chars_of(needle);
    if n.len() > h.len() {
        return false;
    }
    let last = h.len() - n.len();
    let mut i: usize = 0;
    loop
        invariant
            h@ == hay@,
            n@ == needle@,
            n@.len() <= h@.len(),
            last == h@.len() - n@.len(),
            i <= last,
            forall|j: int| 0 <= j < i ==> !occurs_at(h@, n@, j),
        ensures
            forall|j: int| 0 <= j <= last ==> !occurs_at(h@, n@, j),
        decreases last - i,
    {
        if occurs_at_exec(&h, &n, i) {
            return true;
        }
        if i == last {
            break;
        }
        i = i + 1;
    }
    assert forall|j: int| !occurs_at(h@, n@, j) by {
        if j > last {
            assert(j + n@.len() > h@.len());
        }
    }
    false
}

/// Marks the hits of `search` among the words of `rows` as `Selected`.
pub fn find_and_mark(search: &str, rows: &mut Vec<Vec<Word>>)
    ensures
        rows_view(final(rows)@) == search_rows(rows_view(old(rows)@), search@),
{
    let ghost orig = rows_view(rows@);
    let empty = search.is_empty();
    let mut r: usize = 0;
    while r < rows.len()
        invariant
            orig == rows_view(old(rows)@),
            empty == (search@.len() == 0),
            r <= orig.len(),
            rows_view(rows@).len() == orig.len(),
            forall|i: int| 0 <= i < orig.len() ==> (#[trigger] rows_view(rows@)[i]).len() == orig[i].len(),
            forall|i: int, c: int|
                #![trigger rows_view(rows@)[i][c]]
                0 <= i < orig.len() && 0 <= c < orig[i].len() ==> rows_view(rows@)[i][c] == if i < r {
                    search_mark_view(orig[i][c], search@)
                } else {
                    orig[i][c]
                },
        decreases orig.len() - r,
    {
        proof {
            lemma_rows_view(rows@);
            lemma_rows_view(old(rows)@);
            assert(rows_view(rows@)[r as int].len() == orig[r as int].len());
        }
        let len = rows[r].len();
        let mut c: usize = 0;
        while c < len
            invariant
                orig == rows_view(old(rows)@),
                empty == (search@.len() == 0),
                r < orig.len(),
                len == orig[r as int].len(),
                c <= len,
                rows_view(rows@).len() == orig.len(),
                forall|i: int| 0 <= i < orig.len() ==> (#[trigger] rows_view(rows@)[i]).len() == orig[i].len(),
                forall|i: int, k: int|
                    #![trigger rows_view(rows@)[i][k]]
                    0 <= i < orig.len() && 0 <= k < orig[i].len() ==> rows_view(rows@)[i][k] == if i < r
                        || (i == r && k < c) {
                        search_mark_view(orig[i][k], search@)
                    } else {
                        orig[i][k]
                    },
            decreases len - c,
        {
            proof {
                lemma_rows_view(rows@);
                assert(rows_view(rows@)[r as int].len() == orig[r as int].len());
            }
            let ghost pre = rows@;
            proof {
                lemma_rows_view(pre);
                assert forall|i: int| 0 <= i < orig.len() implies pre[i]@.len() == orig[i].len() by {
                    assert(rows_view(rows@)[i].len() == orig[i].len());
                }
            }
            if !empty && rows[r][c].kind != WordType::Selected && str_contains(
                rows[r][c].content.as_str(),
                search,
            ) {
                rows[r][c].set_kind(WordType::Selected);
            }
            proof {
                lemma_rows_view(rows@);
                assert forall|i: int| 0 <= i < orig.len() implies (#[trigger] rows_view(rows@)[i]).len()
                    == orig[i].len() by {
                    assert(rows@[i]@.len() == pre[i]@.len());
                }
            }
            c = c + 1;
        }
        r = r + 1;
    }
    proof {
        let target = search_rows(orig, search@);
        let now = rows_view(rows@);
        assert forall|i: int, k: int| 0 <= i < orig.len() && 0 <= k < orig[i].len() implies #[trigger] now[i][k]
            == target[i][k] by {}
        lemma_rows_ext(now, target);
    }
}

/// How a heading's text reads as a link target: spaces become `-`, and
/// ASCII capitals become small letters.
pub open spec fn slug_char(c: char) -> char {
    if c == ' ' {
        '-'
    } else if 'A' <= c && c <= 'Z' {
        (((c as u8) + 32) as u8) as char
    } else {
        c
    }
}

/// The link-target form of a heading's text.
pub open spec fn heading_slug(text: Seq<char>) -> Seq<char> {
    text.map_values(|c: char| slug_char(c))
}

/// A heading's link target has one char per char of its text: a space becomes
/// `-`, an ASCII capital becomes its small letter (32 code points on), and
/// every other char stays; so no ASCII capital is left in it.
pub proof fn heading_slug_lowercases(t: Seq<char>)
    ensures
        heading_slug(t).len() == t.len(),
        forall|i: int| 0 <= i < t.len() && t[i] == ' ' ==> #[trigger] heading_slug(t)[i] == '-',
        forall|i: int|
            0 <= i < t.len() && 'A' <= t[i] && t[i] <= 'Z' ==> (#[trigger] heading_slug(t)[i]) as u32 == (t[i] as u32)
                + 32,
        forall|i: int|
            0 <= i < t.len() && t[i] != ' ' && !('A' <= t[i] && t[i] <= 'Z') ==> #[trigger] heading_slug(t)[i]
                == t[i],
        forall|i: int| 0 <= i < t.len() ==> !('A' <= #[trigger] heading_slug(t)[i] && heading_slug(t)[i] <= 'Z'),
{
    assert forall|i: int| 0 <= i < t.len() && 'A' <= t[i] && t[i] <= 'Z' implies (#[trigger] heading_slug(t)[i]) as u32
        == (t[i] as u32) + 32 by {
        let c = t[i];
        let v = c as u32;
        assert(65 <= v <= 90);
        assert((c as u8) as u32 == v);
        assert((((c as u8) + 32) as u8) as u32 == v + 32);
    }
}

fn slug_char_exec(c: char) -> (r: char)
    ensures
        r == slug_char(c),
{
    if c == ' ' {
        '-'
    } else if 'A' <= c && c <= 'Z' {
        ((c as u8) + 32) as char
    } else {
        c
    }
}

/// Whether the link target `target` names the heading whose rows are `rows`:
/// it equals the slug of the heading's text (the contents of its words).
pub fn compare_heading(target: &Vec<char>, rows: &Vec<Vec<Word>>) -> (b: bool)
    ensures
        b == (target@ == heading_slug(words_text(flat(rows_view(rows@))))),
{
    let ghost rv = rows_view(rows@);
    let mut slug: Vec<char> = Vec::new();
    let mut r: usize = 0;
    while r < rows.len()
        invariant
            rv == rows_view(rows@),
            r <= rows@.len(),
            slug@ == heading_slug(words_text(flat(rv.take(r as int)))),
        decreases rows@.len() - r,
    {
        proof {
            lemma_rows_view(rows@);
        }
        let row = &rows[r];
        let mut c: usize = 0;
        let ghost before = words_text(flat(rv.take(r as int)));
        assert(before + words_text(rv[r as int].take(0)) =~= before);
        while c < row.len()
            invariant
                rv == rows_view(rows@),
                r < rv.len(),
                row_view(*row) == rv[r as int],
                c <= rv[r as int].len(),
                slug@ == heading_slug(before + words_text(rv[r as int].take(c as int))),
            decreases rv[r as int].len() - c,
        {
            proof {
                lemma_rows_view(rows@);
            }
            let chars = chars_of(row[c].content.as_str());
            let mut k: usize = 0;
            let ghost base = before + words_text(rv[r as int].take(c as int));
            assert(base + chars@.take(0) =~= base);
            while k < chars.len()
                invariant
                    c < rv[r as int].len(),
                    chars@ == rv[r as int][c as int].text,
                    k <= chars@.len(),
                    slug@ == heading_slug(base + chars@.take(k as int)),
                decreases chars@.len() - k,
            {
                slug.push(slug_char_exec(chars[k]));
                proof {
                    assert(base + chars@.take(k as int + 1) =~= (base + chars@.take(k as int)).push(
                        chars@[k as int],
                    ));
                    assert(slug@ =~= heading_slug(base + chars@.take(k as int + 1)));
                }
                k = k + 1;
            }
            proof {
                assert(chars@.take(chars@.len() as int) =~= chars@);
                lemma_words_text_step(rv[r as int], c as int);
                assert(before + words_text(rv[r as int].take(c as int + 1)) =~= base + chars@);
            }
            c = c + 1;
        }
        proof {
            assert(rv[r as int].take(rv[r as int].len() as int) =~= rv[r as int]);
            let t = rv.take(r as int + 1);
            assert(t.drop_last() =~= rv.take(r as int));
            lemma_words_text_concat(flat(rv.take(r as int)), rv[r as int]);
        }
        r = r + 1;
    }
    proof {
        assert(rv.take(rv.len() as int) =~= rv);
    }
    if slug.len() != target.len() {
        return false;
    }
    let mut i: usize = 0;
    while i < slug.len()
        invariant
            slug@.len() == target@.len(),
            slug@ == heading_slug(words_text(flat(rows_view(rows@)))),
            i <= slug@.len(),
            forall|j: int| 0 <= j < i ==> slug@[j] == target@[j],
        decreases slug@.len() - i,
    {
        if slug[i] != target[i] {
            return false;
        }
        i = i + 1;
    }
    assert(slug@ =~= target@);
    true
}

} // verus!
