//! The document model: a settings header plus two keyed collections of
//! entries, with insert-or-replace and name-based removal, and the merge
//! and difference operators over whole documents.

use vstd::prelude::*;

use crate::entry::{Entry, EntryV};
use crate::text::{str_eq, trim_seq, trim_str};

verus! {

/// Some entry of `s` bears the name `name`.
pub open spec fn has_name(s: Seq<EntryV>, name: Seq<char>) -> bool {
    exists|i: int| 0 <= i < s.len() && s[i].name == name
}

/// The raster of the first entry of `s` named `name` (the empty sequence
/// when there is none).
pub open spec fn raster_of(s: Seq<EntryV>, name: Seq<char>) -> Seq<char>
    decreases s.len(),
{
    if s.len() == 0 {
        Seq::<char>::empty()
    } else if s[0].name == name {
        s[0].raster
    } else {
        raster_of(s.drop_first(), name)
    }
}

/// Insert-or-replace: the first entry of `s` named like `e` is replaced by
/// `e`; if none is, `e` is appended.
pub open spec fn upsert(s: Seq<EntryV>, e: EntryV) -> Seq<EntryV>
    decreases s.len(),
{
    if s.len() == 0 {
        seq![e]
    } else if s[0].name == e.name {
        seq![e] + s.drop_first()
    } else {
        seq![s[0]] + upsert(s.drop_first(), e)
    }
}

/// `s` without any entry named `name`.
pub open spec fn remove_name(s: Seq<EntryV>, name: Seq<char>) -> Seq<EntryV>
    decreases s.len(),
{
    if s.len() == 0 {
        s
    } else if s[0].name == name {
        remove_name(s.drop_first(), name)
    } else {
        seq![s[0]] + remove_name(s.drop_first(), name)
    }
}

/// Each entry of `b`, in order, upserted into `a`.
pub open spec fn upsert_all(a: Seq<EntryV>, b: Seq<EntryV>) -> Seq<EntryV>
    decreases b.len(),
{
    if b.len() == 0 {
        a
    } else {
        upsert_all(upsert(a, b[0]), b.drop_first())
    }
}

/// `a` without any entry named like an entry of `b`.
pub open spec fn remove_names(a: Seq<EntryV>, b: Seq<EntryV>) -> Seq<EntryV>
    decreases b.len(),
{
    if b.len() == 0 {
        a
    } else {
        remove_names(remove_name(a, b[0].name), b.drop_first())
    }
}

/// Names are pairwise distinct within the collection.
pub open spec fn wf_entries(s: Seq<EntryV>) -> bool {
    forall|i: int, j: int| 0 <= i < j < s.len() ==> s[i].name != s[j].name
}

/// The union of two documents: the left settings, and the right entries
/// upserted over the left ones.
pub open spec fn merge_doc(a: DocV, b: DocV) -> DocV {
    DocV {
        settings: a.settings,
        label: upsert_all(a.label, b.label),
        ramcell: upsert_all(a.ramcell, b.ramcell),
    }
}

/// The subtraction of two documents: the left settings, and every name
/// present in either collection of the right removed from both collections
/// of the left.
pub open spec fn difference_doc(a: DocV, b: DocV) -> DocV {
    DocV {
        settings: a.settings,
        label: remove_names(remove_names(a.label, b.label), b.ramcell),
        ramcell: remove_names(remove_names(a.ramcell, b.label), b.ramcell),
    }
}

/// The mathematical value of a document.
#[verifier::ext_equal]
pub ghost struct DocV {
    pub settings: Seq<char>,
    pub label: Seq<EntryV>,
    pub ramcell: Seq<EntryV>,
}

impl DocV {
    /// Within each collection the entry names are unique.
    pub open spec fn wf(self) -> bool {
        wf_entries(self.label) && wf_entries(self.ramcell)
    }
}

/// An in-memory LAB document: free-form settings text and the label and
/// ramcell collections, each keyed by entry name.
#[derive(Debug, PartialEq)]
pub struct LabFile {
    pub settings: String,
    pub label: Vec<Entry>,
    pub ramcell: Vec<Entry>,
}

/// The entries of an executable collection, as mathematical values.
pub open spec fn views_of(v: Seq<Entry>) -> Seq<EntryV> {
    v.map_values(|e: Entry| e@)
}

impl View for LabFile {
    type V = DocV;

    open spec fn view(&self) -> DocV {
        DocV {
            settings: self.settings@,
            label: views_of(self.label@),
            ramcell: views_of(self.ramcell@),
        }
    }
}

impl LabFile {
    /// Creates a document with the given header (trimmed of surrounding
    /// whitespace) and no entries.
    pub fn new(header: &str) -> (r: LabFile)
        ensures
            r@.settings == trim_seq(header@),
            r@.label == Seq::<EntryV>::empty(),
            r@.ramcell == Seq::<EntryV>::empty(),
            r@.wf(),
    {
        let r = LabFile { settings: trim_str(header), label: Vec::new(), ramcell: Vec::new() };
        proof {
            assert(r@.label =~= Seq::<EntryV>::empty());
            assert(r@.ramcell =~= Seq::<EntryV>::empty());
        }
        r
    }

    /// Adds a label entry; an existing entry of the same name is replaced.
    pub fn add_label(&mut self, label_name: &str, label_raster: &str)
        ensures
            final(self)@.settings == old(self)@.settings,
            final(self)@.ramcell == old(self)@.ramcell,
            final(self)@.label == upsert(
                old(self)@.label,
                EntryV { name: label_name@, raster: label_raster@ },
            ),
            old(self)@.wf() ==> final(self)@.wf(),
    {
        upsert_entry(&mut self.label, label_name, label_raster);
        proof {
            if old(self)@.wf() {
                lemma_upsert_wf(
                    old(self)@.label,
                    EntryV { name: label_name@, raster: label_raster@ },
                );
            }
        }
    }

    /// Adds a ramcell entry; an existing entry of the same name is replaced.
    pub fn add_ramcell(&mut self, label_name: &str, label_raster: &str)
        ensures
            final(self)@.settings == old(self)@.settings,
            final(self)@.label == old(self)@.label,
            final(self)@.ramcell == upsert(
                old(self)@.ramcell,
                EntryV { name: label_name@, raster: label_raster@ },
            ),
            old(self)@.wf() ==> final(self)@.wf(),
    {
        upsert_entry(&mut self.ramcell, label_name, label_raster);
        proof {
            if old(self)@.wf() {
                lemma_upsert_wf(
                    old(self)@.ramcell,
                    EntryV { name: label_name@, raster: label_raster@ },
                );
            }
        }
    }

    /// Removes the entry of the given name from both collections; absence
    /// in a collection is not an error.
    pub fn delete_label(&mut self, label_name: &str)
        ensures
            final(self)@.settings == old(self)@.settings,
            final(self)@.label == remove_name(old(self)@.label, label_name@),
            final(self)@.ramcell == remove_name(old(self)@.ramcell, label_name@),
            old(self)@.wf() ==> final(self)@.wf(),
    {
        remove_entry(&mut self.label, label_name);
        remove_entry(&mut self.ramcell, label_name);
        proof {
            if old(self)@.wf() {
                lemma_remove_wf(old(self)@.label, label_name@);
                lemma_remove_wf(old(self)@.ramcell, label_name@);
            }
        }
    }

    /// The union of two documents: keeps `self`'s settings; every entry of
    /// `other` is upserted, so on a name collision `other`'s raster wins.
    pub fn merge(self, other: LabFile) -> (r: LabFile)
        ensures
            r@ == merge_doc(self@, other@),
            self@.wf() ==> r@.wf(),
    {
        let mut out = self;
        let ghost a = out@;
        let mut i: usize = 0;
        while i < other.label.len()
            invariant
                0 <= i <= other.label@.len(),
                out@.settings == a.settings,
                out@.ramcell == a.ramcell,
                out@.label == upsert_all(a.label, other@.label.take(i as int)),
                a.wf() ==> out@.wf(),
            decreases other.label@.len() - i,
        {
            let e = &other.label[i];
            out.add_label(e.name.as_str(), e.raster.as_str());
            proof {
                assert(other@.label.take(i as int).push(other@.label[i as int]) =~= other@.label
                    .take(i as int + 1));
                lemma_upsert_all_push(a.label, other@.label.take(i as int), other@.label[i as int]);
            }
            i = i + 1;
        }
        proof {
            assert(other@.label.take(other@.label.len() as int) =~= other@.label);
        }
        let mut j: usize = 0;
        while j < other.ramcell.len()
            invariant
                0 <= j <= other.ramcell@.len(),
                out@.settings == a.settings,
                out@.label == upsert_all(a.label, other@.label),
                out@.ramcell == upsert_all(a.ramcell, other@.ramcell.take(j as int)),
                a.wf() ==> out@.wf(),
            decreases other.ramcell@.len() - j,
        {
            let e = &other.ramcell[j];
            out.add_ramcell(e.name.as_str(), e.raster.as_str());
            proof {
                assert(other@.ramcell.take(j as int).push(other@.ramcell[j as int])
                    =~= other@.ramcell.take(j as int + 1));
                lemma_upsert_all_push(
                    a.ramcell,
                    other@.ramcell.take(j as int),
                    other@.ramcell[j as int],
                );
            }
            j = j + 1;
        }
        proof {
            assert(other@.ramcell.take(other@.ramcell.len() as int) =~= other@.ramcell);
            assert(out@ =~= merge_doc(a, other@));
        }
        out
    }

    /// The subtraction of two documents: keeps `self`'s settings; every name
    /// present in either collection of `other` is removed from both
    /// collections of the result.
    pub fn difference(self, other: LabFile) -> (r: LabFile)
        ensures
            r@ == difference_doc(self@, other@),
            self@.wf() ==> r@.wf(),
    {
        let mut out = self;
        let ghost a = out@;
        let mut i: usize = 0;
        while i < other.label.len()
            invariant
                0 <= i <= other.label@.len(),
                out@.settings == a.settings,
                out@.label == remove_names(a.label, other@.label.take(i as int)),
                out@.ramcell == remove_names(a.ramcell, other@.label.take(i as int)),
                a.wf() ==> out@.wf(),
            decreases other.label@.len() - i,
        {
            let e = &other.label[i];
            out.delete_label(e.name.as_str());
            proof {
                assert(other@.label.take(i as int).push(other@.label[i as int]) =~= other@.label
                    .take(i as int + 1));
                lemma_remove_names_push(a.label, other@.label.take(i as int), other@.label[i as int]);
                lemma_remove_names_push(
                    a.ramcell,
                    other@.label.take(i as int),
                    other@.label[i as int],
                );
            }
            i = i + 1;
        }
        proof {
            assert(other@.label.take(other@.label.len() as int) =~= other@.label);
        }
        let ghost l1 = out@.label;
        let ghost r1 = out@.ramcell;
        let mut j: usize = 0;
        while j < other.ramcell.len()
            invariant
                0 <= j <= other.ramcell@.len(),
                out@.settings == a.settings,
                out@.label == remove_names(l1, other@.ramcell.take(j as int)),
                out@.ramcell == remove_names(r1, other@.ramcell.take(j as int)),
                a.wf() ==> out@.wf(),
            decreases other.ramcell@.len() - j,
        {
            let e = &other.ramcell[j];
            out.delete_label(e.name.as_str());
            proof {
                assert(other@.ramcell.take(j as int).push(other@.ramcell[j as int])
                    =~= other@.ramcell.take(j as int + 1));
                lemma_remove_names_push(l1, other@.ramcell.take(j as int), other@.ramcell[j as int]);
                lemma_remove_names_push(r1, other@.ramcell.take(j as int), other@.ramcell[j as int]);
            }
            j = j + 1;
        }
        proof {
            assert(other@.ramcell.take(other@.ramcell.len() as int) =~= other@.ramcell);
            assert(out@ =~= difference_doc(a, other@));
        }
        out
    }
}

/// Replaces the first entry of `v` named `name`, or appends a new one.
fn upsert_entry(v: &mut Vec<Entry>, name: &str, raster: &str)
    ensures
        views_of(final(v)@) == upsert(
            views_of(old(v)@),
            EntryV { name: name@, raster: raster@ },
        ),
{
    let ghost e = EntryV { name: name@, raster: raster@ };
    let n: usize = v.len();
    let mut i: usize = 0;
    while i < n
        invariant
            0 <= i <= n,
            n == v@.len(),
            v@ == old(v)@,
            e == (EntryV { name: name@, raster: raster@ }),
            forall|j: int| 0 <= j < i ==> views_of(v@)[j].name != name@,
        decreases n - i,
    {
        if str_eq(v[i].name.as_str(), name) {
            proof {
                assert(views_of(v@)[i as int] == v@[i as int]@);
                lemma_upsert_at(views_of(v@), e, i as int);
            }
            let fresh = Entry::new(String::from_str(name), String::from_str(raster));
            proof {
                assert(fresh@.name == e.name);
                assert(fresh@.raster == e.raster);
                assert(fresh@ =~= e);
            }
            v[i] = fresh;
            proof {
                assert(views_of(v@) =~= views_of(old(v)@).update(i as int, e));
            }
            return;
        }
        i = i + 1;
    }
    proof {
        assert(!has_name(views_of(v@), name@)) by {
            if has_name(views_of(v@), name@) {
                let k = choose|k: int|
                    0 <= k < views_of(v@).len() && views_of(v@)[k].name == name@;
            }
        }
        lemma_upsert_absent(views_of(v@), e);
    }
    let fresh = Entry::new(String::from_str(name), String::from_str(raster));
    proof {
        assert(fresh@.name == e.name);
        assert(fresh@.raster == e.raster);
        assert(fresh@ =~= e);
    }
    v.push(fresh);
    proof {
        assert(views_of(v@) =~= views_of(old(v)@).push(e));
    }
}

/// Removes every entry of `v` named `name`, keeping the order of the rest.
fn remove_entry(v: &mut Vec<Entry>, name: &str)
    ensures
        views_of(final(v)@) == remove_name(views_of(old(v)@), name@),
{
    let n: usize = v.len();
    let mut out: Vec<Entry> = Vec::new();
    let mut i: usize = 0;
    proof {
        assert(views_of(out@) =~= remove_name(views_of(v@.take(0)), name@));
    }
    while i < n
        invariant
            0 <= i <= n,
            n == v@.len(),
            v@ == old(v)@,
            views_of(out@) == remove_name(views_of(v@.take(i as int)), name@),
        decreases n - i,
    {
        let keep: bool = !str_eq(v[i].name.as_str(), name);
        proof {
            assert(views_of(v@.take(i as int)).push(v@[i as int]@) =~= views_of(
                v@.take(i as int + 1),
            ));
            lemma_remove_push(views_of(v@.take(i as int)), v@[i as int]@, name@);
        }
        if keep {
            let copied = Entry::new(
                String::from_str(v[i].name.as_str()),
                String::from_str(v[i].raster.as_str()),
            );
            proof {
                assert(copied@ =~= v@[i as int]@);
            }
            let ghost prior = out@;
            out.push(copied);
            proof {
                assert(views_of(out@) =~= views_of(prior).push(v@[i as int]@));
            }
        }
        i = i + 1;
    }
    proof {
        assert(v@.take(n as int) =~= v@);
    }
    *v = out;
}
/// Membership of a name in a collection with one entry in front.
pub proof fn lemma_has_name_cons(x: EntryV, s: Seq<EntryV>, m: Seq<char>)
    ensures
        has_name(seq![x] + s, m) <==> (x.name == m || has_name(s, m)),
{
    let t = seq![x] + s;
    assert(t.drop_first() =~= s);
    if has_name(t, m) {
        let i = choose|i: int| 0 <= i < t.len() && t[i].name == m;
        if i > 0 {
            assert(s[i - 1].name == m);
        }
    }
    if x.name == m {
        assert(t[0].name == m);
    }
    if has_name(s, m) {
        let i = choose|i: int| 0 <= i < s.len() && s[i].name == m;
        assert(t[i + 1].name == m);
    }
}

/// Membership of a name, split at the first entry.
pub proof fn lemma_has_name_split(s: Seq<EntryV>, m: Seq<char>)
    requires
        s.len() > 0,
    ensures
        has_name(s, m) <==> (s[0].name == m || has_name(s.drop_first(), m)),
{
    assert(seq![s[0]] + s.drop_first() =~= s);
    lemma_has_name_cons(s[0], s.drop_first(), m);
}

/// Name uniqueness of a collection with one entry in front.
pub proof fn lemma_wf_cons(x: EntryV, s: Seq<EntryV>)
    ensures
        wf_entries(seq![x] + s) <==> (wf_entries(s) && !has_name(s, x.name)),
{
    let t = seq![x] + s;
    assert(t.drop_first() =~= s);
    if wf_entries(t) {
        assert forall|i: int, j: int| 0 <= i < j < s.len() implies s[i].name != s[j].name by {
            assert(t[i + 1].name != t[j + 1].name);
        }
        if has_name(s, x.name) {
            let i = choose|i: int| 0 <= i < s.len() && s[i].name == x.name;
            assert(t[0].name == t[i + 1].name);
        }
    }
    if wf_entries(s) && !has_name(s, x.name) {
        assert forall|i: int, j: int| 0 <= i < j < t.len() implies t[i].name != t[j].name by {
            if i == 0 {
                assert(t[j] == s[j - 1]);
                if t[0].name == s[j - 1].name {
                    assert(has_name(s, x.name));
                }
            } else {
                assert(t[i] == s[i - 1] && t[j] == s[j - 1]);
            }
        }
    }
}

/// Name uniqueness, split at the first entry.
pub proof fn lemma_wf_split(s: Seq<EntryV>)
    requires
        s.len() > 0,
    ensures
        wf_entries(s) <==> (wf_entries(s.drop_first()) && !has_name(s.drop_first(), s[0].name)),
{
    assert(seq![s[0]] + s.drop_first() =~= s);
    lemma_wf_cons(s[0], s.drop_first());
}

/// What `upsert` does to membership, rasters, and name uniqueness: the new
/// entry is present with its raster, every other name is untouched.
pub proof fn lemma_upsert_wf(s: Seq<EntryV>, e: EntryV)
    ensures
        wf_entries(s) ==> wf_entries(upsert(s, e)),
        has_name(upsert(s, e), e.name),
        raster_of(upsert(s, e), e.name) == e.raster,
        forall|m: Seq<char>| m != e.name ==> (has_name(upsert(s, e), m) <==> has_name(s, m)),
        forall|m: Seq<char>| m != e.name ==> raster_of(upsert(s, e), m) == raster_of(s, m),
    decreases s.len(),
{
    if s.len() == 0 {
        let t = upsert(s, e);
        assert(t =~= seq![e] + Seq::<EntryV>::empty());
        assert(t[0].name == e.name);
        assert(t.drop_first() =~= Seq::<EntryV>::empty());
        assert forall|m: Seq<char>| m != e.name implies (has_name(t, m) <==> has_name(s, m)) by {
            lemma_has_name_cons(e, Seq::<EntryV>::empty(), m);
        }
        assert forall|m: Seq<char>| m != e.name implies raster_of(t, m) == raster_of(s, m) by {
            assert(raster_of(t, m) == raster_of(t.drop_first(), m));
            assert(raster_of(t.drop_first(), m) == Seq::<char>::empty());
            assert(raster_of(s, m) == Seq::<char>::empty());
        }
    } else if s[0].name == e.name {
        let t = upsert(s, e);
        let sd = s.drop_first();
        assert(t == seq![e] + sd);
        assert(t[0] == e);
        assert(t.drop_first() =~= sd);
        if wf_entries(s) {
            lemma_wf_split(s);
            lemma_wf_cons(e, sd);
        }
        assert forall|m: Seq<char>| m != e.name implies (has_name(t, m) <==> has_name(s, m)) by {
            lemma_has_name_cons(e, sd, m);
            lemma_has_name_split(s, m);
        }
        assert forall|m: Seq<char>| m != e.name implies raster_of(t, m) == raster_of(s, m) by {
            assert(raster_of(t, m) == raster_of(sd, m));
            assert(raster_of(s, m) == raster_of(sd, m));
        }
    } else {
        let t = upsert(s, e);
        let sd = s.drop_first();
        let u = upsert(sd, e);
        lemma_upsert_wf(sd, e);
        assert(t == seq![s[0]] + u);
        assert(t[0] == s[0]);
        assert(t.drop_first() =~= u);
        if wf_entries(s) {
            lemma_wf_split(s);
            assert(has_name(u, s[0].name) <==> has_name(sd, s[0].name));
            lemma_wf_cons(s[0], u);
        }
        assert(raster_of(t, e.name) == raster_of(u, e.name));
        assert forall|m: Seq<char>| m != e.name implies (has_name(t, m) <==> has_name(s, m)) by {
            lemma_has_name_cons(s[0], u, m);
            lemma_has_name_split(s, m);
        }
        assert forall|m: Seq<char>| m != e.name implies raster_of(t, m) == raster_of(s, m) by {
            if s[0].name != m {
                assert(raster_of(t, m) == raster_of(u, m));
                assert(raster_of(s, m) == raster_of(sd, m));
            }
        }
        assert(has_name(t, e.name)) by {
            lemma_has_name_cons(s[0], u, e.name);
        }
    }
}

/// When `k` is the first position of `e`'s name, `upsert` updates it.
pub proof fn lemma_upsert_at(s: Seq<EntryV>, e: EntryV, k: int)
    requires
        0 <= k < s.len(),
        s[k].name == e.name,
        forall|j: int| 0 <= j < k ==> s[j].name != e.name,
    ensures
        upsert(s, e) == s.update(k, e),
    decreases s.len(),
{
    if k == 0 {
        assert(upsert(s, e) =~= s.update(0, e));
    } else {
        assert(s[0].name != e.name);
        assert(s.drop_first()[k - 1].name == e.name);
        assert(forall|j: int| 0 <= j < k - 1 ==> s.drop_first()[j].name != e.name);
        lemma_upsert_at(s.drop_first(), e, k - 1);
        assert(upsert(s, e) =~= s.update(k, e));
    }
}

/// When the name is absent, `upsert` appends.
pub proof fn lemma_upsert_absent(s: Seq<EntryV>, e: EntryV)
    requires
        !has_name(s, e.name),
    ensures
        upsert(s, e) == s.push(e),
    decreases s.len(),
{
    if s.len() == 0 {
        assert(upsert(s, e) =~= s.push(e));
    } else {
        lemma_has_name_split(s, e.name);
        lemma_upsert_absent(s.drop_first(), e);
        assert(upsert(s, e) =~= s.push(e));
    }
}

/// What removal does to membership, rasters, and name uniqueness: the
/// removed name is gone, every other name is untouched.
pub proof fn lemma_remove_wf(s: Seq<EntryV>, name: Seq<char>)
    ensures
        wf_entries(s) ==> wf_entries(remove_name(s, name)),
        !has_name(remove_name(s, name), name),
        forall|m: Seq<char>| m != name ==> (has_name(remove_name(s, name), m) <==> has_name(s, m)),
        forall|m: Seq<char>| m != name ==> raster_of(remove_name(s, name), m) == raster_of(s, m),
    decreases s.len(),
{
    if s.len() == 0 {
        assert(!has_name(remove_name(s, name), name)) by {
            if has_name(remove_name(s, name), name) {
                let i = choose|i: int|
                    0 <= i < remove_name(s, name).len() && remove_name(s, name)[i].name == name;
            }
        }
    } else {
        let sd = s.drop_first();
        let rd = remove_name(sd, name);
        lemma_remove_wf(sd, name);
        if s[0].name == name {
            assert(remove_name(s, name) == rd);
            assert forall|m: Seq<char>| m != name implies (has_name(rd, m) <==> has_name(
                s,
                m,
            )) by {
                lemma_has_name_split(s, m);
            }
            assert forall|m: Seq<char>| m != name implies raster_of(rd, m) == raster_of(s, m) by {
                assert(raster_of(s, m) == raster_of(sd, m));
            }
            if wf_entries(s) {
                lemma_wf_split(s);
            }
        } else {
            let t = seq![s[0]] + rd;
            assert(remove_name(s, name) == t);
            assert(t[0] == s[0]);
            assert(t.drop_first() =~= rd);
            assert(!has_name(t, name)) by {
                lemma_has_name_cons(s[0], rd, name);
            }
            assert forall|m: Seq<char>| m != name implies (has_name(t, m) <==> has_name(s, m)) by {
                lemma_has_name_cons(s[0], rd, m);
                lemma_has_name_split(s, m);
            }
            assert forall|m: Seq<char>| m != name implies raster_of(t, m) == raster_of(s, m) by {
                if s[0].name != m {
                    assert(raster_of(t, m) == raster_of(rd, m));
                    assert(raster_of(s, m) == raster_of(sd, m));
                }
            }
            if wf_entries(s) {
                lemma_wf_split(s);
                assert(has_name(rd, s[0].name) ==> has_name(sd, s[0].name));
                lemma_wf_cons(s[0], rd);
            }
        }
    }
}

/// Pushing an entry and then removing a name commute.
pub proof fn lemma_remove_push(s: Seq<EntryV>, x: EntryV, name: Seq<char>)
    ensures
        remove_name(s.push(x), name) == if x.name == name {
            remove_name(s, name)
        } else {
            remove_name(s, name).push(x)
        },
    decreases s.len(),
{
    if s.len() == 0 {
        assert(s.push(x)[0] == x);
        assert(s.push(x).drop_first() =~= s);
        if x.name == name {
            assert(remove_name(s.push(x), name) =~= remove_name(s, name));
        } else {
            assert(remove_name(s.push(x), name) =~= remove_name(s, name).push(x));
        }
    } else {
        assert(s.push(x)[0] == s[0]);
        assert(s.push(x).drop_first() =~= s.drop_first().push(x));
        lemma_remove_push(s.drop_first(), x, name);
        if s[0].name == name {
        } else if x.name == name {
            assert(remove_name(s.push(x), name) =~= remove_name(s, name));
        } else {
            assert(remove_name(s.push(x), name) =~= remove_name(s, name).push(x));
        }
    }
}

/// Folding one more entry into an `upsert_all`.
pub proof fn lemma_upsert_all_push(a: Seq<EntryV>, b: Seq<EntryV>, x: EntryV)
    ensures
        upsert_all(a, b.push(x)) == upsert(upsert_all(a, b), x),
    decreases b.len(),
{
    if b.len() == 0 {
        assert(b.push(x)[0] == x);
        assert(b.push(x).drop_first() =~= b);
        assert(upsert_all(upsert(a, x), b) == upsert(a, x));
        assert(upsert_all(a, b.push(x)) == upsert(a, x));
    } else {
        assert(b.push(x)[0] == b[0]);
        assert(b.push(x).drop_first() =~= b.drop_first().push(x));
        lemma_upsert_all_push(upsert(a, b[0]), b.drop_first(), x);
    }
}

/// Folding one more name into a `remove_names`.
pub proof fn lemma_remove_names_push(a: Seq<EntryV>, b: Seq<EntryV>, x: EntryV)
    ensures
        remove_names(a, b.push(x)) == remove_name(remove_names(a, b), x.name),
    decreases b.len(),
{
    if b.len() == 0 {
        assert(b.push(x)[0] == x);
        assert(b.push(x).drop_first() =~= b);
        assert(remove_names(remove_name(a, x.name), b) == remove_name(a, x.name));
        assert(remove_names(a, b.push(x)) == remove_name(a, x.name));
    } else {
        assert(b.push(x)[0] == b[0]);
        assert(b.push(x).drop_first() =~= b.drop_first().push(x));
        lemma_remove_names_push(remove_name(a, b[0].name), b.drop_first(), x);
    }
}

} // verus!
