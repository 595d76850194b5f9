//! Writing the merged changelog out.

use vstd::prelude::*;
use crate::host::Link;
use crate::order::{
    add_unique, equal_keys_in_order, law_sorted_unique, law_stable_order_keeps_ties, law_stable_order_sorted, pair_view, sort_positions,
    sorted_unique, stable_order, strictly_ascending, text_lt,
};
use crate::sections::{
    entry_view, find_bucket, insert_entry, lemma_insert_leaves_others, names_unique, BucketView,
    EntryView, SectionBucket, Sections,
};
use crate::text::{chars_of, concat, string_of, trim, trim_of};

verus! {

/// What `str::replace` returns: every occurrence of `from` in `s`, found from
/// the left without overlap, replaced by `to`.
pub open spec fn replace_all(s: Seq<char>, from: Seq<char>, to: Seq<char>) -> Seq<char>
    decreases s.len(),
{
    if s.len() == 0 {
        seq![]
    } else if from.len() > 0 && from.len() <= s.len() && s.subrange(0, from.len() as int) == from {
        to + replace_all(s.skip(from.len() as int), from, to)
    } else {
        seq![s[0]] + replace_all(s.drop_first(), from, to)
    }
}

/// Relies on `str::replace` with a non-empty `&str` pattern.
#[verifier::external_body]
fn replace_text(s: &str, from: &str, to: &str) -> (r: String)
    requires
        from@.len() > 0,
    ensures
        r@ == replace_all(s@, from@, to@),
{
    s.replace(from, to)
}

/// `n` hash marks.
pub open spec fn hashes(n: nat) -> Seq<char>
    decreases n,
{
    if n == 0 {
        seq![]
    } else {
        hashes((n - 1) as nat).push('#')
    }
}

/// `s` without one leading `-`.
pub open spec fn strip_dash(s: Seq<char>) -> Seq<char> {
    if s.len() > 0 && s[0] == '-' {
        s.drop_first()
    } else {
        s
    }
}

/// An item's text without its bullet marker and the white space around it.
pub open spec fn item_text(raw: Seq<char>) -> Seq<char> {
    trim_of(strip_dash(trim_of(raw)))
}

/// The list line of one entry: the template with `{link_short}`, `{link}` and
/// `{item}` filled in, in that order.
pub open spec fn entry_line(format: Seq<char>, e: EntryView) -> Seq<char> {
    "- "@ + replace_all(
        replace_all(replace_all(format, "{link_short}"@, e.1.0), "{link}"@, e.1.1),
        "{item}"@,
        item_text(e.0),
    ) + "\n"@
}

pub open spec fn entry_lines(format: Seq<char>, es: Seq<EntryView>) -> Seq<char>
    decreases es.len(),
{
    if es.len() == 0 {
        seq![]
    } else {
        entry_lines(format, es.drop_last()) + entry_line(format, es.last())
    }
}

pub open spec fn shorthand_keys(es: Seq<EntryView>) -> Seq<Seq<char>> {
    es.map_values(|e: EntryView| e.1.0)
}

/// A bucket's entries in ascending shorthand order; entries with equal
/// shorthands keep the order they were added in.
pub open spec fn sorted_entries(es: Seq<EntryView>) -> Seq<EntryView> {
    stable_order(es.len(), shorthand_keys(es)).map_values(|k: int| es[k])
}

/// The heading and lines of the section `name`; nothing when no bucket has it.
pub open spec fn section_text(b: Seq<BucketView>, name: Seq<char>, format: Seq<char>) -> Seq<char> {
    match find_bucket(b, name) {
        Some(i) => hashes(b[i].1 as nat) + " "@ + name + "\n"@ + entry_lines(
            format,
            sorted_entries(b[i].2),
        ),
        None => seq![],
    }
}

/// The links that the section `name` shows, in the order it shows them.
pub open spec fn section_links(b: Seq<BucketView>, name: Seq<char>) -> Seq<(Seq<char>, Seq<char>)> {
    match find_bucket(b, name) {
        Some(i) => sorted_entries(b[i].2).map_values(|e: EntryView| e.1),
        None => seq![],
    }
}

/// The sections `names`, in that order, a blank line between each two.
pub open spec fn body_text(b: Seq<BucketView>, names: Seq<Seq<char>>, format: Seq<char>) -> Seq<
    char,
>
    decreases names.len(),
{
    if names.len() == 0 {
        seq![]
    } else {
        body_text(b, names.drop_last(), format) + (if names.len() > 1 {
            "\n"@
        } else {
            seq![]
        }) + section_text(b, names.last(), format)
    }
}

/// Every link shown by the sections `names`, in order of appearance.
pub open spec fn shown_links(b: Seq<BucketView>, names: Seq<Seq<char>>) -> Seq<
    (Seq<char>, Seq<char>),
>
    decreases names.len(),
{
    if names.len() == 0 {
        seq![]
    } else {
        shown_links(b, names.drop_last()) + section_links(b, names.last())
    }
}

pub open spec fn definition_lines(u: Seq<(Seq<char>, Seq<char>)>) -> Seq<char>
    decreases u.len(),
{
    if u.len() == 0 {
        seq![]
    } else {
        definition_lines(u.drop_last()) + "["@ + u.last().0 + "]: "@ + u.last().1 + "\n"@
    }
}

/// A blank line, then one `[shorthand]: full` line per distinct link, in
/// ascending order; nothing when there are no links.
pub open spec fn appendix(links: Seq<(Seq<char>, Seq<char>)>) -> Seq<char> {
    let u = sorted_unique(links);
    if u.len() == 0 {
        seq![]
    } else {
        "\n"@ + definition_lines(u)
    }
}

/// The whole document.
pub open spec fn render_text(
    b: Seq<BucketView>,
    names: Seq<Seq<char>>,
    format: Seq<char>,
    short_links: bool,
) -> Seq<char> {
    body_text(b, names, format) + if short_links {
        appendix(shown_links(b, names))
    } else {
        seq![]
    }
}

/// The list line of one entry.
pub fn format_entry(format: &str, item: &String, link: &Link) -> (r: String)
    ensures
        r@ == entry_line(format@, (item@, link@)),
{
    proof {
        reveal_strlit("{link_short}");
        reveal_strlit("{link}");
        reveal_strlit("{item}");
    }
    let t = trim(item.as_str());
    let cs = chars_of(t.as_str());
    let stripped = if cs.len() > 0 && cs[0] == '-' {
        let mut rest: Vec<char> = Vec::new();
        let mut i: usize = 1;
        while i < cs.len()
            invariant
                1 <= i <= cs@.len(),
                rest@ == cs@.subrange(1, i as int),
            decreases cs.len() - i,
        {
            rest.push(cs[i]);
            i = i + 1;
        }
        assert(rest@ == cs@.drop_first());
        string_of(&rest)
    } else {
        t
    };
    let it = trim(stripped.as_str());
    let a = replace_text(format, "{link_short}", link.shorthand.as_str());
    let b = replace_text(a.as_str(), "{link}", link.full.as_str());
    let c = replace_text(b.as_str(), "{item}", it.as_str());
    let mut line = concat("- ", c.as_str());
    line.append("\n");
    line
}

/// Appends the heading and the sorted lines of `bucket`, and adds the links
/// it shows to `set`.
fn render_bucket(
    bucket: &SectionBucket,
    name: &String,
    format: &str,
    out: &mut String,
    set: &mut Vec<(Vec<char>, Vec<char>)>,
    prev: Ghost<Seq<(Seq<char>, Seq<char>)>>,
)
    requires
        old(set)@.map_values(|x: (Vec<char>, Vec<char>)| pair_view(x)) == sorted_unique(prev@),
    ensures
        final(out)@ == old(out)@ + hashes(bucket@.1 as nat) + " "@ + name@ + "\n"@ + entry_lines(
            format@,
            sorted_entries(bucket@.2),
        ),
        final(set)@.map_values(|x: (Vec<char>, Vec<char>)| pair_view(x)) == sorted_unique(
            prev@ + sorted_entries(bucket@.2).map_values(|e: EntryView| e.1),
        ),
{
    let ghost start = out@;
    let ghost bv = bucket@;
    proof {
        reveal_strlit("#");
    }
    let mut h: usize = 0;
    while h < bucket.level as usize
        invariant
            h <= bv.1,
            bv == bucket@,
            out@ == start + hashes(h as nat),
        decreases bucket.level as usize - h,
    {
        out.append("#");
        proof {
            reveal_strlit("#");
        }
        assert("#"@ =~= seq!['#']);
        assert(out@ =~= start + hashes((h + 1) as nat));
        h = h + 1;
    }
    out.append(" ");
    out.append(name.as_str());
    out.append("\n");
    let ghost mid = out@;
    let mut keys: Vec<Vec<char>> = Vec::new();
    let mut q: usize = 0;
    while q < bucket.entries.len()
        invariant
            q <= bv.2.len(),
            bv == bucket@,
            keys@.map_values(|v: Vec<char>| v@) == shorthand_keys(bv.2).subrange(0, q as int),
        decreases bucket.entries.len() - q,
    {
        assert(bv.2[q as int] == entry_view(bucket.entries@[q as int]));
        assert(shorthand_keys(bv.2)[q as int] == bucket.entries@[q as int].1.shorthand@);
        let key = chars_of(bucket.entries[q].1.shorthand.as_str());
        let ghost old_keys = keys@.map_values(|v: Vec<char>| v@);
        keys.push(key);
        assert(keys@.map_values(|v: Vec<char>| v@) =~= old_keys.push(key@));
        q = q + 1;
        assert(keys@.map_values(|v: Vec<char>| v@) =~= shorthand_keys(bv.2).subrange(0, q as int));
    }
    assert(shorthand_keys(bv.2).subrange(0, bv.2.len() as int) == shorthand_keys(bv.2));
    let p = sort_positions(&keys);
    let ghost sorted = sorted_entries(bv.2);
    let ghost links = sorted.map_values(|e: EntryView| e.1);
    assert(sorted.len() == p@.len());
    let mut q: usize = 0;
    assert(prev@ + links.subrange(0, 0) == prev@);
    while q < p.len()
        invariant
            q <= p@.len(),
            bv == bucket@,
            sorted == sorted_entries(bv.2),
            links == sorted.map_values(|e: EntryView| e.1),
            sorted.len() == p@.len(),
            p@.len() == bv.2.len(),
            forall|m: int| 0 <= m < p@.len() ==> (#[trigger] p@[m]) < bv.2.len(),
            forall|m: int| 0 <= m < p@.len() ==> (#[trigger] sorted[m]) == bv.2[p@[m] as int],
            out@ == mid + entry_lines(format@, sorted.subrange(0, q as int)),
            set@.map_values(|x: (Vec<char>, Vec<char>)| pair_view(x)) == sorted_unique(
                prev@ + links.subrange(0, q as int),
            ),
        decreases p.len() - q,
    {
        let entry = &bucket.entries[p[q]];
        assert(sorted[q as int] == (entry.0@, entry.1@));
        let line = format_entry(format, &entry.0, &entry.1);
        out.append(line.as_str());
        add_unique(
            set,
            (chars_of(entry.1.shorthand.as_str()), chars_of(entry.1.full.as_str())),
        );
        assert(sorted.subrange(0, q + 1).drop_last() == sorted.subrange(0, q as int));
        assert((prev@ + links.subrange(0, q + 1)).drop_last() == prev@ + links.subrange(0, q as int));
        q = q + 1;
    }
    assert(sorted.subrange(0, sorted.len() as int) == sorted);
    assert(links.subrange(0, links.len() as int) == links);
}

impl Sections {
    /// Writes the sections `section_names`, in that order, as markdown; with
    /// `short_links`, followed by the definitions of the links shown.
    pub fn render(&self, section_names: &Vec<String>, format: &str, short_links: bool) -> (r: String)
        requires
            self.wf(),
        ensures
            r@ == render_text(
                self@,
                section_names@.map_values(|s: String| s@),
                format@,
                short_links,
            ),
    {
        let ghost names = section_names@.map_values(|s: String| s@);
        let ghost b = self@;
        let mut out = String::new();
        let mut set: Vec<(Vec<char>, Vec<char>)> = Vec::new();
        let mut k: usize = 0;
        while k < section_names.len()
            invariant
                k <= names.len(),
                self.wf(),
                b == self@,
                names == section_names@.map_values(|s: String| s@),
                out@ == body_text(b, names.subrange(0, k as int), format@),
                set@.map_values(|x: (Vec<char>, Vec<char>)| pair_view(x)) == sorted_unique(
                    shown_links(b, names.subrange(0, k as int)),
                ),
            decreases section_names.len() - k,
        {
            let ghost prefix = names.subrange(0, k as int);
            let ghost next = names.subrange(0, k + 1);
            assert(next.drop_last() == prefix);
            assert(next.last() == section_names@[k as int]@);
            if k > 0 {
                out.append("\n");
            }
            let ghost before = out@;
            let ghost links_before = shown_links(b, prefix);
            let name = &section_names[k];
            match self.find(name) {
                None => {
                    assert(section_text(b, name@, format@) == Seq::<char>::empty());
                    assert(out@ == before + section_text(b, name@, format@));
                    assert(section_links(b, name@) == Seq::<(Seq<char>, Seq<char>)>::empty());
                    assert(shown_links(b, next) == links_before + section_links(b, name@));
                    assert(links_before + Seq::<(Seq<char>, Seq<char>)>::empty() == links_before);
                },
                Some(i) => {
                    let bucket = &self.buckets()[i];
                    assert(bucket@ == b[i as int]);
                    render_bucket(bucket, name, format, &mut out, &mut set, Ghost(links_before));
                    assert(shown_links(b, next) == links_before + section_links(b, name@));
                },
            }
            k = k + 1;
        }
        assert(names.subrange(0, names.len() as int) == names);
        if short_links && set.len() > 0 {
            out.append("\n");
            let ghost head = out@;
            let mut j: usize = 0;
            while j < set.len()
                invariant
                    j <= set@.len(),
                    out@ == head + definition_lines(
                        set@.map_values(|x: (Vec<char>, Vec<char>)| pair_view(x)).subrange(0, j as int),
                    ),
                decreases set.len() - j,
            {
                let ghost u = set@.map_values(|x: (Vec<char>, Vec<char>)| pair_view(x));
                assert(u.subrange(0, j + 1).drop_last() == u.subrange(0, j as int));
                out.append("[");
                let s = string_of(&set[j].0);
                out.append(s.as_str());
                out.append("]: ");
                let f = string_of(&set[j].1);
                out.append(f.as_str());
                out.append("\n");
                j = j + 1;
            }
            assert(set@.map_values(|x: (Vec<char>, Vec<char>)| pair_view(x)).subrange(0, set@.len() as int)
                == set@.map_values(|x: (Vec<char>, Vec<char>)| pair_view(x)));
        }
        out
    }
}

/// Within a rendered section the entries appear in ascending shorthand
/// order, and every entry of the bucket appears, whatever order the fragments
/// were processed in; entries with equal shorthands keep the order they were
/// added in.
pub proof fn law_section_order(es: Seq<EntryView>)
    ensures
        equal_keys_in_order(stable_order(es.len(), shorthand_keys(es)), shorthand_keys(es)),
        sorted_entries(es).len() == es.len(),
        forall|i: int, j: int|
            0 <= i < j < es.len() ==> !text_lt(
                (#[trigger] sorted_entries(es)[j]).1.0,
                (#[trigger] sorted_entries(es)[i]).1.0,
            ),
        forall|k: int| 0 <= k < es.len() ==> #[trigger] sorted_entries(es).contains(es[k]),
{
    let keys = shorthand_keys(es);
    let order = stable_order(es.len(), keys);
    law_stable_order_sorted(es.len(), keys);
    law_stable_order_keeps_ties(es.len(), keys);
    let sorted = sorted_entries(es);
    assert forall|i: int| 0 <= i < order.len() implies 0 <= #[trigger] order[i] < es.len() by {
        assert(order.contains(order[i]));
    }
    assert forall|i: int, j: int| 0 <= i < j < es.len() implies !text_lt(
        (#[trigger] sorted[j]).1.0,
        (#[trigger] sorted[i]).1.0,
    ) by {
        assert(sorted[i] == es[order[i]] && sorted[j] == es[order[j]]);
        assert(keys[order[i]] == es[order[i]].1.0);
        assert(keys[order[j]] == es[order[j]].1.0);
    }
    assert forall|k: int| 0 <= k < es.len() implies #[trigger] sorted.contains(es[k]) by {
        assert(order.contains(k));
        let m = choose|m: int| 0 <= m < order.len() && order[m] == k;
        assert(sorted[m] == es[k]);
    }
}

/// The link definitions at the end list each distinct `(shorthand, full)`
/// pair shown exactly once, and nothing else, in ascending order.
pub proof fn law_links_defined_once(b: Seq<BucketView>, names: Seq<Seq<char>>)
    ensures
        ({
            let u = sorted_unique(shown_links(b, names));
            &&& strictly_ascending(u)
            &&& forall|x: (Seq<char>, Seq<char>)| #[trigger] u.contains(x) <==> shown_links(
                b,
                names,
            ).contains(x)
        }),
{
    law_sorted_unique(shown_links(b, names));
}

proof fn lemma_unlisted_parts(
    b: Seq<BucketView>,
    names: Seq<Seq<char>>,
    name: Seq<char>,
    level: u8,
    e: EntryView,
    format: Seq<char>,
)
    requires
        names_unique(b),
        !names.contains(name),
    ensures
        body_text(insert_entry(b, name, level, e), names, format) == body_text(b, names, format),
        shown_links(insert_entry(b, name, level, e), names) == shown_links(b, names),
    decreases names.len(),
{
    let b2 = insert_entry(b, name, level, e);
    if names.len() > 0 {
        let init = names.drop_last();
        assert(!init.contains(name)) by {
            if init.contains(name) {
                let m = choose|m: int| 0 <= m < init.len() && init[m] == name;
                assert(names[m] == name);
            }
        }
        lemma_unlisted_parts(b, init, name, level, e, format);
        assert(names[names.len() - 1] == names.last());
        lemma_insert_leaves_others(b, name, level, e, names.last());
        assert(section_text(b2, names.last(), format) == section_text(b, names.last(), format));
        assert(section_links(b2, names.last()) == section_links(b, names.last()));
    }
}

/// A bucket whose heading is not among the requested sections leaves the
/// document exactly as it would be without it.
pub proof fn law_unlisted_section_ignored(
    b: Seq<BucketView>,
    names: Seq<Seq<char>>,
    name: Seq<char>,
    level: u8,
    e: EntryView,
    format: Seq<char>,
    short_links: bool,
)
    requires
        names_unique(b),
        !names.contains(name),
    ensures
        render_text(insert_entry(b, name, level, e), names, format, short_links) == render_text(
            b,
            names,
            format,
            short_links,
        ),
{
    lemma_unlisted_parts(b, names, name, level, e, format);
}

/// Rendering is a function of the buckets, the section names, the template
/// and the flag: the same inputs give the same document, byte for byte.
pub proof fn law_render_deterministic(
    s1: Sections,
    s2: Sections,
    names: Seq<Seq<char>>,
    format: Seq<char>,
    short_links: bool,
)
    requires
        s1@ == s2@,
    ensures
        render_text(s1@, names, format, short_links) == render_text(
            s2@,
            names,
            format,
            short_links,
        ),
{
}

} // verus!
