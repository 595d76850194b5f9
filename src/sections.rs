//! Section buckets: the list items of every fragment, gathered under the
//! heading they stand below.

use vstd::prelude::*;
use crate::host::{Link, MergeError};
use crate::text::{trim, trim_of};
use comrak::nodes::NodeValue;

verus! {

/// What the walk over a fragment's markdown tree meets, in document order.
#[derive(Debug)]
pub enum MarkdownNode {
    /// A heading of `level`; each part is the text of a direct child, or
    /// `None` for a child that is not plain text.
    Heading { level: u8, parts: Vec<Option<String>> },
    /// A list item, written back as markdown.
    Item(String),
    /// Anything else.
    Other,
}

/// An item's markdown text and the link of its fragment.
pub type EntryView = (Seq<char>, (Seq<char>, Seq<char>));

/// A bucket's heading text, heading level and entries.
pub type BucketView = (Seq<char>, u8, Seq<EntryView>);

/// The items gathered under one heading.
#[derive(Debug)]
pub struct SectionBucket {
    pub name: String,
    pub level: u8,
    pub entries: Vec<(String, Link)>,
}

pub open spec fn entry_view(e: (String, Link)) -> EntryView {
    (e.0@, e.1@)
}

impl View for SectionBucket {
    type V = BucketView;

    open spec fn view(&self) -> BucketView {
        (self.name@, self.level, self.entries@.map_values(|e: (String, Link)| entry_view(e)))
    }
}

/// All buckets, in the order their headings were first met.
#[derive(Debug)]
pub struct Sections {
    buckets: Vec<SectionBucket>,
}

impl View for Sections {
    type V = Seq<BucketView>;

    closed spec fn view(&self) -> Seq<BucketView> {
        self.buckets@.map_values(|b: SectionBucket| b@)
    }
}

/// No two buckets share a heading text.
pub open spec fn names_unique(b: Seq<BucketView>) -> bool {
    forall|i: int, j: int| 0 <= i < j < b.len() ==> (#[trigger] b[i]).0 != (#[trigger] b[j]).0
}

/// The bucket headed `name`, if there is one.
pub open spec fn find_bucket(b: Seq<BucketView>, name: Seq<char>) -> Option<int> {
    if exists|i: int| 0 <= i < b.len() && (#[trigger] b[i]).0 == name {
        Some(choose|i: int| 0 <= i < b.len() && (#[trigger] b[i]).0 == name)
    } else {
        None
    }
}

/// Appends `e` to the bucket headed `name`; a new bucket of `level` is made
/// when there is none.
pub open spec fn insert_entry(b: Seq<BucketView>, name: Seq<char>, level: u8, e: EntryView) -> Seq<
    BucketView,
> {
    match find_bucket(b, name) {
        Some(i) => b.update(i, (b[i].0, b[i].1, b[i].2.push(e))),
        None => b.push((name, level, seq![e])),
    }
}

/// Whether every part of a heading is plain text.
pub open spec fn all_text(parts: Seq<Option<String>>) -> bool {
    forall|i: int| 0 <= i < parts.len() ==> (#[trigger] parts[i]) is Some
}

/// The parts of a heading, joined.
pub open spec fn joined(parts: Seq<Option<String>>) -> Seq<char>
    decreases parts.len(),
{
    if parts.len() == 0 {
        seq![]
    } else {
        joined(parts.drop_last()) + match parts.last() {
            Some(s) => s@,
            None => seq![],
        }
    }
}

/// Walks `nodes` from the section cursor `cursor`: a heading moves the cursor
/// to its trimmed text and level, an item joins the cursor's bucket with
/// `link`, and items before any heading are dropped. `None` when a heading
/// holds something other than text.
pub open spec fn apply_nodes(
    b: Seq<BucketView>,
    cursor: Option<(Seq<char>, u8)>,
    nodes: Seq<MarkdownNode>,
    link: (Seq<char>, Seq<char>),
) -> Option<Seq<BucketView>>
    decreases nodes.len(),
{
    if nodes.len() == 0 {
        Some(b)
    } else {
        let rest = nodes.drop_first();
        match nodes[0] {
            MarkdownNode::Heading { level, parts } => if all_text(parts@) {
                apply_nodes(b, Some((trim_of(joined(parts@)), level)), rest, link)
            } else {
                None
            },
            MarkdownNode::Item(x) => match cursor {
                Some(c) => apply_nodes(insert_entry(b, c.0, c.1, (x@, link)), cursor, rest, link),
                None => apply_nodes(b, None, rest, link),
            },
            MarkdownNode::Other => apply_nodes(b, cursor, rest, link),
        }
    }
}

/// The nodes comrak's walk over the markdown `text` meets, in document order.
pub uninterp spec fn markdown_nodes_of(text: Seq<char>) -> Seq<MarkdownNode>;

/// Relies on `comrak::parse_document` and its node walk in document order,
/// and on `comrak::format_commonmark` to write each list item back.
#[verifier::external_body]
fn markdown_nodes(text: &str) -> (r: Vec<MarkdownNode>)
    ensures
        r@ == markdown_nodes_of(text@),
{
    let (arena, options) = (comrak::Arena::new(), comrak::Options::default());
    let root = comrak::parse_document(&arena, text, &options);
    root.descendants().map(|n| match &n.data.borrow().value {
        NodeValue::Heading(h) => MarkdownNode::Heading { level: h.level, parts: n.children().map(|c| match &c.data.borrow().value {
            NodeValue::Text(t) => Some(t.to_string()),
            _ => None,
        }).collect() },
        NodeValue::Item(_) => {
            let mut s = String::new();
            let _ = comrak::format_commonmark(n, &options, &mut s);
            MarkdownNode::Item(s)
        },
        _ => MarkdownNode::Other,
    }).collect()
}

/// The text of a heading, or `None` when a part is not plain text.
pub fn heading_text(parts: &Vec<Option<String>>) -> (r: Option<String>)
    ensures
        all_text(parts@) ==> (r matches Some(t) && t@ == joined(parts@)),
        !all_text(parts@) ==> r is None,
{
    let mut out = String::new();
    let mut i: usize = 0;
    while i < parts.len()
        invariant
            i <= parts@.len(),
            all_text(parts@.subrange(0, i as int)),
            out@ == joined(parts@.subrange(0, i as int)),
        decreases parts.len() - i,
    {
        match &parts[i] {
            Some(s) => {
                out.append(s.as_str());
            },
            None => {
                return None;
            },
        }
        assert(parts@.subrange(0, i + 1).drop_last() == parts@.subrange(0, i as int));
        i = i + 1;
        assert forall|k: int| 0 <= k < i implies (#[trigger] parts@.subrange(0, i as int)[k]) is Some by {
            if k < i - 1 {
                assert(parts@.subrange(0, i as int)[k] == parts@.subrange(0, i - 1)[k]);
            }
        }
    }
    assert(parts@.subrange(0, parts@.len() as int) == parts@);
    Some(out)
}

impl Sections {
    pub open spec fn wf(&self) -> bool {
        names_unique(self@)
    }

    /// No buckets yet.
    pub fn new() -> (r: Sections)
        ensures
            r.wf(),
            r@ == Seq::<BucketView>::empty(),
    {
        let r = Sections { buckets: Vec::new() };
        assert(r@ =~= Seq::<BucketView>::empty());
        r
    }

    /// The buckets, in the order their headings were first met.
    pub fn buckets(&self) -> (r: &Vec<SectionBucket>)
        ensures
            r@.map_values(|b: SectionBucket| b@) == self@,
    {
        &self.buckets
    }

    /// The position of the bucket headed `name`.
    pub fn find(&self, name: &String) -> (r: Option<usize>)
        requires
            self.wf(),
        ensures
            match r {
                Some(i) => find_bucket(self@, name@) == Some(i as int),
                None => find_bucket(self@, name@) is None,
            },
    {
        let mut i: usize = 0;
        while i < self.buckets.len()
            invariant
                i <= self@.len(),
                self.wf(),
                self@.len() == self.buckets@.len(),
                forall|j: int| 0 <= j < i ==> (#[trigger] self@[j]).0 != name@,
            decreases self.buckets.len() - i,
        {
            if self.buckets[i].name == *name {
                assert(self@[i as int].0 == name@);
                proof {
                    let j = choose|j: int| 0 <= j < self@.len() && (#[trigger] self@[j]).0 == name@;
                    if j < i {
                        assert(self@[j].0 != self@[i as int].0);
                    } else if j > i {
                        assert(self@[i as int].0 != self@[j].0);
                    }
                }
                return Some(i);
            }
            i = i + 1;
        }
        None
    }

    /// Adds `item` with `link` to the bucket headed `name`, making the bucket
    /// (of `level`) when it is new.
    pub fn add_item(&mut self, name: String, level: u8, item: String, link: Link)
        requires
            old(self).wf(),
        ensures
            final(self).wf(),
            final(self)@ == insert_entry(old(self)@, name@, level, (item@, link@)),
    {
        let ghost e: EntryView = (item@, link@);
        match self.find(&name) {
            Some(i) => {
                let mut bucket = self.buckets.remove(i);
                let ghost bv = bucket@;
                bucket.entries.push((item, link));
                assert(bucket@.2 =~= bv.2.push(e));
                self.buckets.insert(i, bucket);
                assert(self@ =~= insert_entry(old(self)@, name@, level, e));
            },
            None => {
                let entries = vec![(item, link)];
                let bucket = SectionBucket { name, level, entries };
                assert(bucket@.2 =~= seq![e]);
                self.buckets.push(bucket);
                assert(self@ =~= insert_entry(old(self)@, bucket@.0, level, e));
            },
        }
    }

    /// Adds the items of the fragment whose markdown is `text`, each with
    /// `link`. Fails on a heading that holds something other than text.
    pub fn add_markdown(&mut self, text: &str, link: &Link) -> (r: Result<(), MergeError>)
        requires
            old(self).wf(),
        ensures
            final(self).wf(),
            match apply_nodes(old(self)@, None, markdown_nodes_of(text@), link@) {
                Some(b) => r is Ok && final(self)@ == b,
                None => r == Err::<(), MergeError>(MergeError::UnsupportedHeading),
            },
    {
        let nodes = markdown_nodes(text);
        self.add_fragment(&nodes, link)
    }

    /// Adds the items of one fragment, walked as `nodes`, each with `link`.
    /// Fails on a heading that holds something other than text.
    pub fn add_fragment(&mut self, nodes: &Vec<MarkdownNode>, link: &Link) -> (r: Result<
        (),
        MergeError,
    >)
        requires
            old(self).wf(),
        ensures
            final(self).wf(),
            match apply_nodes(old(self)@, None, nodes@, link@) {
                Some(b) => r is Ok && final(self)@ == b,
                None => r == Err::<(), MergeError>(MergeError::UnsupportedHeading),
            },
    {
        let mut cursor: Option<(String, u8)> = None;
        let ghost goal = apply_nodes(old(self)@, None, nodes@, link@);
        let mut i: usize = 0;
        assert(nodes@.skip(0) == nodes@);
        while i < nodes.len()
            invariant
                i <= nodes@.len(),
                self.wf(),
                goal == apply_nodes(old(self)@, None, nodes@, link@),
                goal == apply_nodes(
                    self@,
                    match cursor {
                        Some(c) => Some((c.0@, c.1)),
                        None => None,
                    },
                    nodes@.skip(i as int),
                    link@,
                ),
            decreases nodes.len() - i,
        {
            assert(nodes@.skip(i as int).drop_first() == nodes@.skip(i + 1));
            assert(nodes@.skip(i as int)[0] == nodes@[i as int]);
            match &nodes[i] {
                MarkdownNode::Heading { level, parts } => {
                    match heading_text(parts) {
                        None => {
                            return Err(MergeError::UnsupportedHeading);
                        },
                        Some(t) => {
                            cursor = Some((trim(t.as_str()), *level));
                        },
                    }
                },
                MarkdownNode::Item(x) => {
                    match &cursor {
                        Some(c) => {
                            self.add_item(c.0.clone(), c.1, x.clone(), link.duplicate());
                        },
                        None => {},
                    }
                },
                MarkdownNode::Other => {},
            }
            i = i + 1;
        }
        Ok(())
    }
}

/// A bucket named `n` other than `name` is found at the same place, and is
/// the same, after an entry is added under `name`.
pub proof fn lemma_insert_leaves_others(
    b: Seq<BucketView>,
    name: Seq<char>,
    level: u8,
    e: EntryView,
    n: Seq<char>,
)
    requires
        names_unique(b),
        n != name,
    ensures
        find_bucket(insert_entry(b, name, level, e), n) == find_bucket(b, n),
        find_bucket(b, n) matches Some(i) ==> insert_entry(b, name, level, e)[i] == b[i],
        insert_entry(b, name, level, e).len() >= b.len(),
{
    let b2 = insert_entry(b, name, level, e);
    assert forall|j: int| 0 <= j < b.len() && (#[trigger] b2[j]).0 == n implies b2[j] == b[j] by {
        if let Some(i) = find_bucket(b, name) {
            assert(b[i].0 == name);
        }
    }
    assert forall|j: int| 0 <= j < b2.len() && (#[trigger] b2[j]).0 == n implies j < b.len() && b[j].0 == n by {
        if let Some(i) = find_bucket(b, name) {
            assert(b[i].0 == name);
        }
    }
    if exists|j: int| 0 <= j < b.len() && (#[trigger] b[j]).0 == n {
        let j = choose|j: int| 0 <= j < b.len() && (#[trigger] b[j]).0 == n;
        if let Some(i) = find_bucket(b, name) {
            assert(b[i].0 == name);
        }
        assert(b2[j].0 == n);
        let j2 = choose|j: int| 0 <= j < b2.len() && (#[trigger] b2[j]).0 == n;
        assert(b[j2].0 == n);
        if j2 < j {
            assert(b[j2].0 != b[j].0);
        } else if j2 > j {
            assert(b[j].0 != b[j2].0);
        }
    }
}

/// Adding under `name` keeps heading texts unique, and the entry ends the
/// bucket named `name`.
pub proof fn lemma_insert_entry(b: Seq<BucketView>, name: Seq<char>, level: u8, e: EntryView)
    requires
        names_unique(b),
    ensures
        names_unique(insert_entry(b, name, level, e)),
        find_bucket(insert_entry(b, name, level, e), name) matches Some(i) && (insert_entry(
            b,
            name,
            level,
            e,
        )[i].2 == (match find_bucket(b, name) {
            Some(k) => b[k].2,
            None => Seq::<EntryView>::empty(),
        }).push(e)) && (find_bucket(b, name) matches Some(k) ==> k == i),
        find_bucket(b, name) is Some ==> insert_entry(b, name, level, e).len() == b.len(),
        find_bucket(b, name) is None ==> insert_entry(b, name, level, e).len() == b.len() + 1,
{
    let b2 = insert_entry(b, name, level, e);
    match find_bucket(b, name) {
        Some(i) => {
            assert(b[i].0 == name);
            assert(b2[i].0 == name);
            let j = choose|j: int| 0 <= j < b2.len() && (#[trigger] b2[j]).0 == name;
            if j != i {
                assert(b[j].0 == name);
                if j < i {
                    assert(b[j].0 != b[i].0);
                } else {
                    assert(b[i].0 != b[j].0);
                }
            }
        },
        None => {
            let n = b.len() as int;
            assert(b2[n].0 == name);
            let j = choose|j: int| 0 <= j < b2.len() && (#[trigger] b2[j]).0 == name;
            if j < n {
                assert(b[j].0 == name);
            }
            assert(seq![e] =~= Seq::<EntryView>::empty().push(e));
        },
    }
}

/// Items under the same heading text, from any fragments, share one bucket;
/// headings are compared after trimming, case-sensitively, so headings that
/// differ in case make different buckets.
pub proof fn law_same_heading_same_bucket(
    b: Seq<BucketView>,
    name: Seq<char>,
    l1: u8,
    l2: u8,
    e1: EntryView,
    e2: EntryView,
)
    requires
        names_unique(b),
    ensures
        ({
            let once = insert_entry(b, name, l1, e1);
            let twice = insert_entry(once, name, l2, e2);
            &&& twice.len() == once.len()
            &&& find_bucket(twice, name) matches Some(i) && find_bucket(once, name) == Some(i)
                && twice[i].2 == once[i].2.push(e2)
        }),
{
    let once = insert_entry(b, name, l1, e1);
    lemma_insert_entry(b, name, l1, e1);
    lemma_insert_entry(once, name, l2, e2);
}

/// Different heading texts fill different buckets.
pub proof fn law_distinct_headings_distinct_buckets(
    b: Seq<BucketView>,
    n1: Seq<char>,
    n2: Seq<char>,
    l1: u8,
    l2: u8,
    e1: EntryView,
    e2: EntryView,
)
    requires
        names_unique(b),
        n1 != n2,
    ensures
        ({
            let twice = insert_entry(insert_entry(b, n1, l1, e1), n2, l2, e2);
            &&& find_bucket(twice, n1) matches Some(i)
            &&& find_bucket(twice, n2) matches Some(j)
            &&& i != j
            &&& twice[i].2.last() == e1
            &&& twice[j].2.last() == e2
        }),
{
    let once = insert_entry(b, n1, l1, e1);
    lemma_insert_entry(b, n1, l1, e1);
    lemma_insert_entry(once, n2, l2, e2);
    lemma_insert_leaves_others(once, n2, l2, e2, n1);
    let twice = insert_entry(once, n2, l2, e2);
    let i = find_bucket(twice, n1)->0;
    let j = find_bucket(twice, n2)->0;
    assert(twice[i].0 == n1);
    assert(twice[j].0 == n2);
}

} // verus!
