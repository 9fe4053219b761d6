//! The library's general laws: insert idempotence, cross-collection
//! removal, merge override, difference inverting a disjoint merge, and the
//! encode/decode round trip.

use vstd::prelude::*;

use crate::doc::{
    difference_doc, has_name, lemma_has_name_split, lemma_remove_wf, lemma_upsert_absent,
    lemma_upsert_wf, lemma_wf_split, merge_doc, raster_of, remove_name, remove_names, upsert,
    upsert_all, wf_entries, DocV,
};
use crate::entry::EntryV;
use crate::text::has_char;
use crate::codec::{
    add_settings_line, decode_run, decode_step, decode_text, empty_doc, encode_text, entry_line,
    label_tok, line_name, line_raster, nl, ramcell_tok, render_entries, settings_tok, Section,
};
use crate::text::{clean_line_of, find_from, is_trimmed, join_lines, split_lines, starts_with_seq, trim_seq, unlines};

verus! {

/// Inserting a name twice keeps only the later raster: the second insert
/// absorbs the first, and a well-formed collection then holds exactly one
/// entry of that name (it is present, and names stay pairwise distinct),
/// bearing the later raster.
pub proof fn lemma_insert_idempotent(s: Seq<EntryV>, n: Seq<char>, r1: Seq<char>, r2: Seq<char>)
    requires
        wf_entries(s),
    ensures
        upsert(upsert(s, EntryV { name: n, raster: r1 }), EntryV { name: n, raster: r2 })
            == upsert(s, EntryV { name: n, raster: r2 }),
        wf_entries(upsert(s, EntryV { name: n, raster: r2 })),
        has_name(upsert(s, EntryV { name: n, raster: r2 }), n),
        raster_of(upsert(s, EntryV { name: n, raster: r2 }), n) == r2,
{
    lemma_upsert_absorbs(s, n, r1, r2);
    lemma_upsert_wf(s, EntryV { name: n, raster: r2 });
}

/// The second of two upserts of the same name wins, on any collection.
proof fn lemma_upsert_absorbs(s: Seq<EntryV>, n: Seq<char>, r1: Seq<char>, r2: Seq<char>)
    ensures
        upsert(upsert(s, EntryV { name: n, raster: r1 }), EntryV { name: n, raster: r2 })
            == upsert(s, EntryV { name: n, raster: r2 }),
    decreases s.len(),
{
    let e1 = EntryV { name: n, raster: r1 };
    let e2 = EntryV { name: n, raster: r2 };
    if s.len() == 0 {
        assert(upsert(s, e1) =~= seq![e1]);
        assert(upsert(upsert(s, e1), e2) =~= upsert(s, e2));
    } else if s[0].name == n {
        assert(upsert(s, e1) == seq![e1] + s.drop_first());
        assert((seq![e1] + s.drop_first())[0] == e1);
        assert((seq![e1] + s.drop_first()).drop_first() =~= s.drop_first());
        assert(upsert(upsert(s, e1), e2) =~= upsert(s, e2));
    } else {
        lemma_upsert_absorbs(s.drop_first(), n, r1, r2);
        let t = seq![s[0]] + upsert(s.drop_first(), e1);
        assert(upsert(s, e1) == t);
        assert(t[0] == s[0]);
        assert(t.drop_first() =~= upsert(s.drop_first(), e1));
        assert(upsert(upsert(s, e1), e2) =~= upsert(s, e2));
    }
}

/// After a removal, no entry of the removed name remains in either
/// collection of the document, wherever it stood before.
pub proof fn lemma_removal_cross_collection(d: DocV, n: Seq<char>)
    ensures
        !has_name(remove_name(d.label, n), n),
        !has_name(remove_name(d.ramcell, n), n),
{
    lemma_remove_wf(d.label, n);
    lemma_remove_wf(d.ramcell, n);
}

/// Upserting entries of other names moves neither membership nor raster of
/// `n`.
proof fn lemma_upsert_all_keeps(a: Seq<EntryV>, b: Seq<EntryV>, n: Seq<char>)
    requires
        !has_name(b, n),
    ensures
        has_name(upsert_all(a, b), n) <==> has_name(a, n),
        raster_of(upsert_all(a, b), n) == raster_of(a, n),
    decreases b.len(),
{
    if b.len() > 0 {
        lemma_has_name_split(b, n);
        lemma_upsert_wf(a, b[0]);
        lemma_upsert_all_keeps(upsert(a, b[0]), b.drop_first(), n);
    }
}

/// Merge override on one collection: when the right-hand collection holds
/// the name, the merged collection holds the right-hand raster for it.
proof fn lemma_upsert_all_override(a: Seq<EntryV>, b: Seq<EntryV>, n: Seq<char>)
    requires
        wf_entries(b),
        has_name(b, n),
    ensures
        has_name(upsert_all(a, b), n),
        raster_of(upsert_all(a, b), n) == raster_of(b, n),
    decreases b.len(),
{
    if b.len() > 0 {
        lemma_has_name_split(b, n);
        lemma_wf_split(b);
        if b[0].name == n {
            lemma_upsert_wf(a, b[0]);
            lemma_upsert_all_keeps(upsert(a, b[0]), b.drop_first(), n);
        } else {
            lemma_upsert_all_override(upsert(a, b[0]), b.drop_first(), n);
        }
    }
}

/// Merge override: when both documents hold a name in a collection, the
/// merged document holds the right-hand document's raster for it; this
/// holds in each collection separately.
pub proof fn lemma_merge_override(a: DocV, b: DocV, n: Seq<char>)
    requires
        b.wf(),
    ensures
        has_name(b.label, n) ==> has_name(merge_doc(a, b).label, n) && raster_of(
            merge_doc(a, b).label,
            n,
        ) == raster_of(b.label, n),
        has_name(b.ramcell, n) ==> has_name(merge_doc(a, b).ramcell, n) && raster_of(
            merge_doc(a, b).ramcell,
            n,
        ) == raster_of(b.ramcell, n),
{
    if has_name(b.label, n) {
        lemma_upsert_all_override(a.label, b.label, n);
    }
    if has_name(b.ramcell, n) {
        lemma_upsert_all_override(a.ramcell, b.ramcell, n);
    }
}

/// No entry of the left collection bears a name of the right collection.
pub open spec fn names_disjoint(a: Seq<EntryV>, b: Seq<EntryV>) -> bool {
    forall|i: int, j: int|
        0 <= i < a.len() && 0 <= j < b.len() ==> a[i].name != b[j].name
}

/// The documents share no entry name, across all four collection pairs.
pub open spec fn docs_disjoint(a: DocV, b: DocV) -> bool {
    names_disjoint(a.label, b.label) && names_disjoint(a.label, b.ramcell) && names_disjoint(
        a.ramcell,
        b.label,
    ) && names_disjoint(a.ramcell, b.ramcell)
}

/// Upserting entries whose names are all fresh appends them.
pub proof fn lemma_upsert_all_disjoint(a: Seq<EntryV>, b: Seq<EntryV>)
    requires
        names_disjoint(a, b),
        wf_entries(b),
    ensures
        upsert_all(a, b) == a + b,
    decreases b.len(),
{
    if b.len() == 0 {
        assert(a + b =~= a);
    } else {
        assert(!has_name(a, b[0].name)) by {
            if has_name(a, b[0].name) {
                let i = choose|i: int| 0 <= i < a.len() && a[i].name == b[0].name;
            }
        }
        lemma_upsert_absent(a, b[0]);
        lemma_wf_split(b);
        assert(names_disjoint(a.push(b[0]), b.drop_first())) by {
            assert forall|i: int, j: int|
                0 <= i < a.push(b[0]).len() && 0 <= j < b.drop_first().len() implies a.push(
                b[0],
            )[i].name != b.drop_first()[j].name by {
                assert(b.drop_first()[j] == b[j + 1]);
                if i < a.len() {
                    assert(a.push(b[0])[i] == a[i]);
                } else {
                    assert(a.push(b[0])[i] == b[0]);
                }
            }
        }
        lemma_upsert_all_disjoint(a.push(b[0]), b.drop_first());
        assert(a.push(b[0]) + b.drop_first() =~= a + b);
    }
}

/// Removing an absent name changes nothing.
proof fn lemma_remove_absent(s: Seq<EntryV>, n: Seq<char>)
    requires
        !has_name(s, n),
    ensures
        remove_name(s, n) == s,
    decreases s.len(),
{
    if s.len() > 0 {
        lemma_has_name_split(s, n);
        lemma_remove_absent(s.drop_first(), n);
        assert(remove_name(s, n) =~= s);
    }
}

/// Removing names that are all absent changes nothing.
proof fn lemma_remove_names_disjoint(a: Seq<EntryV>, b: Seq<EntryV>)
    requires
        names_disjoint(a, b),
    ensures
        remove_names(a, b) == a,
    decreases b.len(),
{
    if b.len() > 0 {
        assert(!has_name(a, b[0].name)) by {
            if has_name(a, b[0].name) {
                let i = choose|i: int| 0 <= i < a.len() && a[i].name == b[0].name;
            }
        }
        lemma_remove_absent(a, b[0].name);
        assert(names_disjoint(a, b.drop_first())) by {
            assert forall|i: int, j: int|
                0 <= i < a.len() && 0 <= j < b.drop_first().len() implies a[i].name
                != b.drop_first()[j].name by {
                assert(b.drop_first()[j] == b[j + 1]);
            }
        }
        lemma_remove_names_disjoint(a, b.drop_first());
    }
}

/// Removing one name distributes over concatenation.
proof fn lemma_remove_name_app(a: Seq<EntryV>, b: Seq<EntryV>, n: Seq<char>)
    ensures
        remove_name(a + b, n) == remove_name(a, n) + remove_name(b, n),
    decreases a.len(),
{
    if a.len() == 0 {
        assert(a + b =~= b);
        assert(remove_name(a, n) + remove_name(b, n) =~= remove_name(b, n));
    } else {
        assert((a + b)[0] == a[0]);
        assert((a + b).drop_first() =~= a.drop_first() + b);
        lemma_remove_name_app(a.drop_first(), b, n);
        if a[0].name == n {
        } else {
            assert(seq![a[0]] + (remove_name(a.drop_first(), n) + remove_name(b, n)) =~= (seq![
                a[0],
            ] + remove_name(a.drop_first(), n)) + remove_name(b, n));
        }
    }
}

/// Removing a list of names distributes over concatenation.
proof fn lemma_remove_names_app(a: Seq<EntryV>, b: Seq<EntryV>, c: Seq<EntryV>)
    ensures
        remove_names(a + b, c) == remove_names(a, c) + remove_names(b, c),
    decreases c.len(),
{
    if c.len() == 0 {
    } else {
        lemma_remove_name_app(a, b, c[0].name);
        lemma_remove_names_app(
            remove_name(a, c[0].name),
            remove_name(b, c[0].name),
            c.drop_first(),
        );
    }
}

/// Every entry left by a removal was an entry name of the original.
proof fn lemma_remove_keeps_names(s: Seq<EntryV>, n: Seq<char>)
    ensures
        forall|k: int|
            0 <= k < remove_name(s, n).len() ==> has_name(s, #[trigger] remove_name(s, n)[k].name),
    decreases s.len(),
{
    if s.len() > 0 {
        lemma_remove_keeps_names(s.drop_first(), n);
        let rd = remove_name(s.drop_first(), n);
        assert forall|k: int|
            0 <= k < remove_name(s, n).len() implies has_name(
            s,
            remove_name(s, n)[k].name,
        ) by {
            if s[0].name == n {
                assert(remove_name(s, n)[k] == rd[k]);
                let i = choose|i: int|
                    0 <= i < s.drop_first().len() && s.drop_first()[i].name == rd[k].name;
                assert(s[i + 1].name == rd[k].name);
            } else {
                let t = seq![s[0]] + rd;
                assert(remove_name(s, n) == t);
                if k == 0 {
                    assert(s[0].name == t[0].name);
                } else {
                    assert(t[k] == rd[k - 1]);
                    let i = choose|i: int|
                        0 <= i < s.drop_first().len() && s.drop_first()[i].name == rd[k - 1].name;
                    assert(s[i + 1].name == rd[k - 1].name);
                }
            }
        }
    }
}

/// Every entry left by removing a list of names was an entry name of the
/// original.
proof fn lemma_remove_names_keeps_names(x: Seq<EntryV>, c: Seq<EntryV>)
    ensures
        forall|k: int|
            0 <= k < remove_names(x, c).len() ==> has_name(
                x,
                #[trigger] remove_names(x, c)[k].name,
            ),
    decreases c.len(),
{
    if c.len() == 0 {
        assert forall|k: int|
            0 <= k < remove_names(x, c).len() implies has_name(
            x,
            remove_names(x, c)[k].name,
        ) by {
            assert(remove_names(x, c)[k] == x[k]);
        }
    } else {
        let y = remove_name(x, c[0].name);
        lemma_remove_keeps_names(x, c[0].name);
        lemma_remove_names_keeps_names(y, c.drop_first());
        assert forall|k: int|
            0 <= k < remove_names(x, c).len() implies has_name(
            x,
            remove_names(x, c)[k].name,
        ) by {
            assert(remove_names(x, c) == remove_names(y, c.drop_first()));
            assert(has_name(y, remove_names(y, c.drop_first())[k].name));
            let i = choose|i: int|
                0 <= i < y.len() && y[i].name == remove_names(y, c.drop_first())[k].name;
        }
    }
}

/// Removing a list of names that covers every entry empties the collection.
proof fn lemma_remove_names_covers(x: Seq<EntryV>, c: Seq<EntryV>)
    requires
        forall|i: int| 0 <= i < x.len() ==> has_name(c, #[trigger] x[i].name),
    ensures
        remove_names(x, c) == Seq::<EntryV>::empty(),
    decreases c.len(),
{
    if c.len() == 0 {
        if x.len() > 0 {
            assert(has_name(c, x[0].name));
            let j = choose|j: int| 0 <= j < c.len() && c[j].name == x[0].name;
        }
        assert(x =~= Seq::<EntryV>::empty());
    } else {
        let y = remove_name(x, c[0].name);
        lemma_remove_keeps_names(x, c[0].name);
        lemma_remove_wf(x, c[0].name);
        assert(forall|k: int| 0 <= k < y.len() ==> has_name(c.drop_first(), #[trigger] y[k].name))
            by {
            assert forall|k: int|
                0 <= k < y.len() implies has_name(c.drop_first(), #[trigger] y[k].name) by {
                assert(has_name(x, y[k].name));
                if y[k].name == c[0].name {
                    assert(has_name(y, c[0].name));
                }
                let i = choose|i: int| 0 <= i < x.len() && x[i].name == y[k].name;
                assert(has_name(c, x[i].name));
                let j = choose|j: int| 0 <= j < c.len() && c[j].name == x[i].name;
                assert(c.drop_first()[j - 1].name == y[k].name);
            }
        }
        lemma_remove_names_covers(y, c.drop_first());
    }
}

/// For documents with disjoint name sets, subtracting the right document
/// from the merged document gives back the left document.
pub proof fn lemma_difference_inverts_merge(a: DocV, b: DocV)
    requires
        a.wf(),
        b.wf(),
        docs_disjoint(a, b),
    ensures
        difference_doc(merge_doc(a, b), b) == a,
{
    lemma_upsert_all_disjoint(a.label, b.label);
    lemma_upsert_all_disjoint(a.ramcell, b.ramcell);
    // label collection
    lemma_remove_names_app(a.label, b.label, b.label);
    lemma_remove_names_disjoint(a.label, b.label);
    assert(forall|i: int| 0 <= i < b.label.len() ==> has_name(b.label, #[trigger] b.label[i].name))
        by {
        assert forall|i: int|
            0 <= i < b.label.len() implies has_name(b.label, #[trigger] b.label[i].name) by {
            assert(b.label[i].name == b.label[i].name);
        }
    }
    lemma_remove_names_covers(b.label, b.label);
    assert(remove_names(a.label + b.label, b.label) =~= a.label);
    lemma_remove_names_disjoint(a.label, b.ramcell);
    // ramcell collection
    lemma_remove_names_app(a.ramcell, b.ramcell, b.label);
    lemma_remove_names_disjoint(a.ramcell, b.label);
    let x = remove_names(b.ramcell, b.label);
    lemma_remove_names_app(a.ramcell, x, b.ramcell);
    lemma_remove_names_disjoint(a.ramcell, b.ramcell);
    lemma_remove_names_keeps_names(b.ramcell, b.label);
    assert(forall|k: int| 0 <= k < x.len() ==> has_name(b.ramcell, #[trigger] x[k].name));
    lemma_remove_names_covers(x, b.ramcell);
    assert(remove_names(remove_names(a.ramcell + b.ramcell, b.label), b.ramcell) =~= a.ramcell);
    assert(difference_doc(merge_doc(a, b), b) =~= a);
}

/// Character-level facts about the three section tokens: each starts with
/// `[`, ends with `]`, and holds neither a newline nor a `;`.
pub proof fn lemma_token_chars()
    ensures
        settings_tok().len() == 10,
        label_tok().len() == 7,
        ramcell_tok().len() == 9,
        settings_tok()[0] == '[',
        label_tok()[0] == '[',
        ramcell_tok()[0] == '[',
        settings_tok().last() == ']',
        label_tok().last() == ']',
        ramcell_tok().last() == ']',
        !has_char(settings_tok(), '\n'),
        !has_char(label_tok(), '\n'),
        !has_char(ramcell_tok(), '\n'),
        !has_char(settings_tok(), ';'),
        !has_char(label_tok(), ';'),
        !has_char(ramcell_tok(), ';'),
{
    reveal_strlit("[SETTINGS]");
    reveal_strlit("[LABEL]");
    reveal_strlit("[RAMCELL]");
    assert(!has_char(settings_tok(), '\n')) by {
        if has_char(settings_tok(), '\n') {
            let i = choose|i: int|
                0 <= i < settings_tok().len() && settings_tok()[i] == '\n';
        }
    }
    assert(!has_char(label_tok(), '\n')) by {
        if has_char(label_tok(), '\n') {
            let i = choose|i: int| 0 <= i < label_tok().len() && label_tok()[i] == '\n';
        }
    }
    assert(!has_char(ramcell_tok(), '\n')) by {
        if has_char(ramcell_tok(), '\n') {
            let i = choose|i: int| 0 <= i < ramcell_tok().len() && ramcell_tok()[i] == '\n';
        }
    }
    assert(!has_char(settings_tok(), ';')) by {
        if has_char(settings_tok(), ';') {
            let i = choose|i: int| 0 <= i < settings_tok().len() && settings_tok()[i] == ';';
        }
    }
    assert(!has_char(label_tok(), ';')) by {
        if has_char(label_tok(), ';') {
            let i = choose|i: int| 0 <= i < label_tok().len() && label_tok()[i] == ';';
        }
    }
    assert(!has_char(ramcell_tok(), ';')) by {
        if has_char(ramcell_tok(), ';') {
            let i = choose|i: int| 0 <= i < ramcell_tok().len() && ramcell_tok()[i] == ';';
        }
    }
}

/// A canonical entry name: no newline or separator, no surrounding
/// whitespace, and no section-token prefix, so its line reads back intact.
pub open spec fn canonical_name(n: Seq<char>) -> bool {
    &&& !has_char(n, '\n')
    &&& !has_char(n, ';')
    &&& is_trimmed(n)
    &&& !starts_with_seq(n, settings_tok())
    &&& !starts_with_seq(n, label_tok())
    &&& !starts_with_seq(n, ramcell_tok())
}

/// A canonical raster: no newline or separator and no surrounding
/// whitespace.
pub open spec fn canonical_raster(r: Seq<char>) -> bool {
    !has_char(r, '\n') && !has_char(r, ';') && is_trimmed(r)
}

/// Every entry of the collection has a canonical name and raster.
pub open spec fn canonical_entries(s: Seq<EntryV>) -> bool {
    forall|i: int|
        0 <= i < s.len() ==> canonical_name(#[trigger] s[i].name) && canonical_raster(s[i].raster)
}

/// The rendered line of a canonical entry survives the decoder's line
/// handling: it is no blank line and no section header, and its name and
/// raster fields read back exactly.
pub proof fn lemma_entry_line_parses(e: EntryV)
    requires
        canonical_name(e.name),
        canonical_raster(e.raster),
    ensures
        !has_char(entry_line(e), '\n'),
        entry_line(e).len() > 0,
        clean_line_of(entry_line(e)) == entry_line(e),
        !starts_with_seq(entry_line(e), settings_tok()),
        !starts_with_seq(entry_line(e), label_tok()),
        !starts_with_seq(entry_line(e), ramcell_tok()),
        line_name(entry_line(e)) == e.name,
        line_raster(entry_line(e)) == e.raster,
{
    lemma_token_chars();
    let l = entry_line(e);
    let n = e.name;
    let r = e.raster;
    assert(!has_char(seq![';'], '\n') && !has_char(seq![';', ' '], '\n')) by {
        if has_char(seq![';'], '\n') {
            let i = choose|i: int| 0 <= i < 1 && seq![';'][i] == '\n';
        }
        if has_char(seq![';', ' '], '\n') {
            let i = choose|i: int| 0 <= i < 2 && seq![';', ' '][i] == '\n';
        }
    }
    if r.len() == 0 {
        assert(l == n + seq![';']);
        assert(l.len() == n.len() + 1);
        assert(l[n.len() as int] == ';');
        crate::text::lemma_has_char_app(n, seq![';'], '\n');
        assert(l.last() == ';');
        // the first `;` sits right after the name
        assert(forall|j: int| 0 <= j < n.len() ==> l[j] == n[j]);
        assert forall|j: int| 0 <= j < n.len() implies l[j] != ';' by {
            if l[j] == ';' {
                assert(n[j] == ';');
            }
        }
        crate::text::lemma_find_hits(l, 0, ';', n.len() as int);
        // name field
        assert(l.take(n.len() as int) =~= n);
        crate::text::lemma_trimmed_fixed(n);
        // raster field: nothing between the separator and the end
        assert(find_from(l, n.len() as int + 1, ';') == l.len());
        assert(l.subrange(n.len() as int + 1, l.len() as int) =~= Seq::<char>::empty());
        assert(trim_seq(Seq::<char>::empty()) =~= Seq::<char>::empty());
        assert(line_raster(l) == r);
    } else {
        assert(l == n + seq![';', ' '] + r + seq![';']);
        assert(l.len() == n.len() + 3 + r.len());
        assert(forall|j: int| 0 <= j < n.len() ==> l[j] == n[j]);
        assert(l[n.len() as int] == ';');
        assert(l[n.len() as int + 1] == ' ');
        assert(forall|j: int| 0 <= j < r.len() ==> l[n.len() + 2 + j] == r[j]);
        assert(l[l.len() - 1] == ';');
        assert(l.last() == ';');
        crate::text::lemma_has_char_app(n + seq![';', ' '], r, '\n');
        crate::text::lemma_has_char_app(n, seq![';', ' '], '\n');
        crate::text::lemma_has_char_app(n + seq![';', ' '] + r, seq![';'], '\n');
        // the first `;` sits right after the name
        assert forall|j: int| 0 <= j < n.len() implies l[j] != ';' by {
            if l[j] == ';' {
                assert(n[j] == ';');
            }
        }
        crate::text::lemma_find_hits(l, 0, ';', n.len() as int);
        // the second `;` is the final character
        assert forall|j: int| n.len() + 1 <= j < l.len() - 1 implies l[j] != ';' by {
            if j > n.len() + 1 {
                assert(l[j] == r[j - n.len() - 2]);
                if l[j] == ';' {
                    assert(r[j - n.len() - 2] == ';');
                }
            }
        }
        crate::text::lemma_find_hits(l, n.len() as int + 1, ';', l.len() - 1);
        // name field
        assert(l.take(n.len() as int) =~= n);
        crate::text::lemma_trimmed_fixed(n);
        // raster field: one leading space before the raster text
        assert(l.subrange(n.len() as int + 1, l.len() - 1) =~= seq![' '] + r);
        crate::text::lemma_trim_space_then(r);
        assert(line_raster(l) == r);
    }
    // a canonical line is never taken for a section header
    assert forall|t: Seq<char>|
        #![trigger starts_with_seq(l, t)]
        (t == settings_tok() || t == label_tok() || t == ramcell_tok()) implies !starts_with_seq(
        l,
        t,
    ) by {
        if starts_with_seq(l, t) {
            if t.len() <= n.len() {
                assert(l.subrange(0, t.len() as int) == t);
                assert(n.subrange(0, t.len() as int) =~= l.subrange(0, t.len() as int));
                assert(starts_with_seq(n, t));
            } else {
                assert(l.subrange(0, t.len() as int)[n.len() as int] == t[n.len() as int]);
                assert(l[n.len() as int] == ';');
                assert(t[n.len() as int] == ';');
                assert(has_char(t, ';'));
            }
        }
    }
    assert(!starts_with_seq(l, settings_tok()));
    assert(!starts_with_seq(l, label_tok()));
    assert(!starts_with_seq(l, ramcell_tok()));
}

/// The rendered lines of a collection, one per entry.
pub open spec fn entry_lines(s: Seq<EntryV>) -> Seq<Seq<char>> {
    s.map_values(|e: EntryV| entry_line(e))
}

/// The canonical text of a document, line by line: the settings block, then
/// a label block if there are labels, then a ramcell block likewise, each
/// closed by one blank line.
pub open spec fn doc_lines(d: DocV) -> Seq<Seq<char>> {
    seq![settings_tok()] + split_lines(d.settings) + seq![Seq::<char>::empty()] + (
    if d.label.len() > 0 {
        seq![label_tok()] + entry_lines(d.label) + seq![Seq::<char>::empty()]
    } else {
        Seq::<Seq<char>>::empty()
    }) + (
    if d.ramcell.len() > 0 {
        seq![ramcell_tok()] + entry_lines(d.ramcell) + seq![Seq::<char>::empty()]
    } else {
        Seq::<Seq<char>>::empty()
    })
}

/// The rendered entry block is its lines, each newline-terminated.
proof fn lemma_render_unlines(s: Seq<EntryV>)
    ensures
        render_entries(s) == unlines(entry_lines(s)),
    decreases s.len(),
{
    if s.len() == 0 {
        assert(entry_lines(s) =~= Seq::<Seq<char>>::empty());
    } else {
        lemma_render_unlines(s.drop_first());
        assert(entry_lines(s)[0] == entry_line(s[0]));
        assert(entry_lines(s).drop_first() =~= entry_lines(s.drop_first()));
        assert(render_entries(s) =~= unlines(entry_lines(s)));
    }
}

/// The encoded text is exactly the document's lines, newline-terminated.
proof fn lemma_encode_is_unlines(d: DocV)
    ensures
        encode_text(d) == unlines(doc_lines(d)),
{
    let sl = split_lines(d.settings);
    crate::text::lemma_split_nonempty(d.settings);
    crate::text::lemma_unlines_join(sl);
    crate::text::lemma_join_split(d.settings);
    let seg_s = seq![settings_tok()] + sl + seq![Seq::<char>::empty()];
    crate::text::lemma_unlines_app(seq![settings_tok()], sl);
    crate::text::lemma_unlines_app(seq![settings_tok()] + sl, seq![Seq::<char>::empty()]);
    assert((seq![settings_tok()] + sl) + seq![Seq::<char>::empty()] =~= seg_s);
    assert(unlines(seq![settings_tok()]) =~= settings_tok() + nl()) by {
        assert(seq![settings_tok()].drop_first() =~= Seq::<Seq<char>>::empty());
        assert(unlines(Seq::<Seq<char>>::empty()) =~= Seq::<char>::empty());
    }
    assert(unlines(seq![Seq::<char>::empty()]) =~= nl()) by {
        assert(seq![Seq::<char>::empty()].drop_first() =~= Seq::<Seq<char>>::empty());
        assert(unlines(Seq::<Seq<char>>::empty()) =~= Seq::<char>::empty());
    }
    assert(unlines(sl) == join_lines(sl) + seq!['\n']);
    assert(unlines(seg_s) =~= settings_tok() + nl() + d.settings + nl() + nl());
    let seg_l = if d.label.len() > 0 {
        seq![label_tok()] + entry_lines(d.label) + seq![Seq::<char>::empty()]
    } else {
        Seq::<Seq<char>>::empty()
    };
    if d.label.len() > 0 {
        crate::text::lemma_unlines_app(seq![label_tok()], entry_lines(d.label));
        crate::text::lemma_unlines_app(
            seq![label_tok()] + entry_lines(d.label),
            seq![Seq::<char>::empty()],
        );
        assert((seq![label_tok()] + entry_lines(d.label)) + seq![Seq::<char>::empty()]
            =~= seg_l);
        assert(unlines(seq![label_tok()]) =~= label_tok() + nl()) by {
            assert(seq![label_tok()].drop_first() =~= Seq::<Seq<char>>::empty());
            assert(unlines(Seq::<Seq<char>>::empty()) =~= Seq::<char>::empty());
        }
        assert(unlines(seq![Seq::<char>::empty()]) =~= nl()) by {
            assert(seq![Seq::<char>::empty()].drop_first() =~= Seq::<Seq<char>>::empty());
            assert(unlines(Seq::<Seq<char>>::empty()) =~= Seq::<char>::empty());
        }
        lemma_render_unlines(d.label);
        assert(unlines(seg_l) =~= label_tok() + nl() + render_entries(d.label) + nl());
    } else {
        assert(unlines(seg_l) =~= Seq::<char>::empty());
    }
    let seg_r = if d.ramcell.len() > 0 {
        seq![ramcell_tok()] + entry_lines(d.ramcell) + seq![Seq::<char>::empty()]
    } else {
        Seq::<Seq<char>>::empty()
    };
    if d.ramcell.len() > 0 {
        crate::text::lemma_unlines_app(seq![ramcell_tok()], entry_lines(d.ramcell));
        crate::text::lemma_unlines_app(
            seq![ramcell_tok()] + entry_lines(d.ramcell),
            seq![Seq::<char>::empty()],
        );
        assert((seq![ramcell_tok()] + entry_lines(d.ramcell)) + seq![Seq::<char>::empty()]
            =~= seg_r);
        assert(unlines(seq![ramcell_tok()]) =~= ramcell_tok() + nl()) by {
            assert(seq![ramcell_tok()].drop_first() =~= Seq::<Seq<char>>::empty());
            assert(unlines(Seq::<Seq<char>>::empty()) =~= Seq::<char>::empty());
        }
        assert(unlines(seq![Seq::<char>::empty()]) =~= nl()) by {
            assert(seq![Seq::<char>::empty()].drop_first() =~= Seq::<Seq<char>>::empty());
            assert(unlines(Seq::<Seq<char>>::empty()) =~= Seq::<char>::empty());
        }
        lemma_render_unlines(d.ramcell);
        assert(unlines(seg_r) =~= ramcell_tok() + nl() + render_entries(d.ramcell) + nl());
    } else {
        assert(unlines(seg_r) =~= Seq::<char>::empty());
    }
    crate::text::lemma_unlines_app(seg_s, seg_l);
    crate::text::lemma_unlines_app(seg_s + seg_l, seg_r);
    assert(doc_lines(d) =~= (seg_s + seg_l) + seg_r);
    assert(encode_text(d) =~= unlines(doc_lines(d)));
}

/// The decoder run splits over concatenated line lists.
proof fn lemma_run_app(d: DocV, sec: Section, x: Seq<Seq<char>>, y: Seq<Seq<char>>)
    ensures
        decode_run(d, sec, x + y) == decode_run(
            decode_run(d, sec, x).0,
            decode_run(d, sec, x).1,
            y,
        ),
    decreases x.len(),
{
    if x.len() == 0 {
        assert(x + y =~= y);
    } else {
        assert((x + y)[0] == x[0]);
        assert((x + y).drop_first() =~= x.drop_first() + y);
        let st = decode_step(d, sec, x[0]);
        lemma_run_app(st.0, st.1, x.drop_first(), y);
    }
}

/// A run over a single line is one step.
proof fn lemma_run_one(d: DocV, sec: Section, l: Seq<char>)
    ensures
        decode_run(d, sec, seq![l]) == decode_step(d, sec, l),
{
    assert(seq![l].drop_first() =~= Seq::<Seq<char>>::empty());
    let st = decode_step(d, sec, l);
    assert(decode_run(st.0, st.1, seq![l].drop_first()) == st);
}

/// A blank line never changes the state.
proof fn lemma_blank_step(d: DocV, sec: Section)
    ensures
        decode_step(d, sec, Seq::<char>::empty()) == (d, sec),
{
    assert(clean_line_of(Seq::<char>::empty()).len() == 0);
}

/// Each section token line switches to its section and nothing more.
proof fn lemma_token_step(d: DocV, sec: Section)
    ensures
        decode_step(d, sec, settings_tok()) == (d, Section::Settings),
        decode_step(d, sec, label_tok()) == (d, Section::Label),
        decode_step(d, sec, ramcell_tok()) == (d, Section::Ramcell),
{
    lemma_token_chars();
    assert(clean_line_of(settings_tok()) == settings_tok());
    assert(clean_line_of(label_tok()) == label_tok());
    assert(clean_line_of(ramcell_tok()) == ramcell_tok());
    assert(settings_tok().subrange(0, settings_tok().len() as int) =~= settings_tok());
    assert(starts_with_seq(settings_tok(), settings_tok()));
    assert(label_tok().subrange(0, label_tok().len() as int) =~= label_tok());
    assert(starts_with_seq(label_tok(), label_tok()));
    assert(ramcell_tok().subrange(0, ramcell_tok().len() as int) =~= ramcell_tok());
    assert(starts_with_seq(ramcell_tok(), ramcell_tok()));
    // the label token is no settings token, nor the ramcell token either
    assert(!starts_with_seq(label_tok(), settings_tok()));
    assert(!starts_with_seq(ramcell_tok(), settings_tok())) by {
        if starts_with_seq(ramcell_tok(), settings_tok()) {
            assert(ramcell_tok().subrange(0, 10)[1] == settings_tok()[1]);
            reveal_strlit("[SETTINGS]");
            reveal_strlit("[RAMCELL]");
        }
    }
    assert(!starts_with_seq(ramcell_tok(), label_tok())) by {
        if starts_with_seq(ramcell_tok(), label_tok()) {
            assert(ramcell_tok().subrange(0, 7)[1] == label_tok()[1]);
            reveal_strlit("[LABEL]");
            reveal_strlit("[RAMCELL]");
        }
    }
}

/// A canonical settings line: non-empty, trimmed, newline-free, and not a
/// section header, so the decoder appends it verbatim.
pub open spec fn canonical_settings_line(l: Seq<char>) -> bool {
    &&& l.len() > 0
    &&& is_trimmed(l)
    &&& !has_char(l, '\n')
    &&& !starts_with_seq(l, settings_tok())
    &&& !starts_with_seq(l, label_tok())
    &&& !starts_with_seq(l, ramcell_tok())
}

/// A canonical settings line is appended to the settings text verbatim.
proof fn lemma_settings_step(d: DocV, l: Seq<char>)
    requires
        canonical_settings_line(l),
    ensures
        decode_step(d, Section::Settings, l) == (add_settings_line(d, l), Section::Settings),
{
    crate::text::lemma_trimmed_ends(l);
    assert(clean_line_of(l) == l);
    assert(trim_seq(l) == l);
}

/// Running the decoder over canonical settings lines joins them onto the
/// settings text, newline-separated.
proof fn lemma_settings_run(d: DocV, ls: Seq<Seq<char>>)
    requires
        forall|i: int| 0 <= i < ls.len() ==> canonical_settings_line(#[trigger] ls[i]),
    ensures
        decode_run(d, Section::Settings, ls) == (
            DocV {
                settings: if ls.len() == 0 {
                    d.settings
                } else if d.settings.len() == 0 {
                    join_lines(ls)
                } else {
                    d.settings + nl() + join_lines(ls)
                },
                ..d
            },
            Section::Settings,
        ),
    decreases ls.len(),
{
    if ls.len() == 0 {
        assert(DocV { settings: d.settings, ..d } =~= d);
    } else {
        lemma_settings_step(d, ls[0]);
        let d1 = add_settings_line(d, ls[0]);
        lemma_settings_run(d1, ls.drop_first());
        assert(d1.label == d.label && d1.ramcell == d.ramcell);
        assert(d1.settings.len() > 0);
        if ls.len() == 1 {
            assert(ls.drop_first().len() == 0);
            assert(join_lines(ls) == ls[0]);
            assert(decode_run(d, Section::Settings, ls) == (
                DocV { settings: d1.settings, ..d1 },
                Section::Settings,
            ));
            assert(DocV { settings: d1.settings, ..d1 } =~= DocV {
                settings: if d.settings.len() == 0 {
                    join_lines(ls)
                } else {
                    d.settings + nl() + join_lines(ls)
                },
                ..d
            });
        } else {
            assert(join_lines(ls) == ls[0] + seq!['\n'] + join_lines(ls.drop_first()));
            if d.settings.len() == 0 {
                assert(d1.settings == ls[0]);
                assert(d1.settings + nl() + join_lines(ls.drop_first()) =~= join_lines(ls));
            } else {
                assert(d1.settings == d.settings + nl() + ls[0]);
                assert(d1.settings + nl() + join_lines(ls.drop_first()) =~= d.settings + nl()
                    + join_lines(ls));
            }
            assert(decode_run(d, Section::Settings, ls).0 =~= DocV {
                settings: if d.settings.len() == 0 {
                    join_lines(ls)
                } else {
                    d.settings + nl() + join_lines(ls)
                },
                ..d
            });
        }
    }
}

/// Running the decoder in the label section over canonical entry lines
/// upserts those entries, in order, and stays in the label section.
proof fn lemma_label_run(d: DocV, s: Seq<EntryV>)
    requires
        canonical_entries(s),
    ensures
        decode_run(d, Section::Label, entry_lines(s)) == (
            DocV { label: upsert_all(d.label, s), ..d },
            Section::Label,
        ),
    decreases s.len(),
{
    if s.len() == 0 {
        assert(entry_lines(s) =~= Seq::<Seq<char>>::empty());
        assert(DocV { label: d.label, ..d } =~= d);
    } else {
        lemma_entry_line_parses(s[0]);
        let l = entry_line(s[0]);
        assert((EntryV { name: line_name(l), raster: line_raster(l) }) =~= s[0]);
        let d1 = DocV { label: upsert(d.label, s[0]), ..d };
        assert(decode_step(d, Section::Label, l) == (d1, Section::Label));
        assert(entry_lines(s)[0] == l);
        assert(entry_lines(s).drop_first() =~= entry_lines(s.drop_first()));
        lemma_label_run(d1, s.drop_first());
        assert(DocV { label: upsert_all(d1.label, s.drop_first()), ..d1 } =~= DocV {
            label: upsert_all(d.label, s),
            ..d
        });
    }
}

/// Running the decoder in the ramcell section over canonical entry lines
/// upserts those entries, in order, and stays in the ramcell section.
proof fn lemma_ramcell_run(d: DocV, s: Seq<EntryV>)
    requires
        canonical_entries(s),
    ensures
        decode_run(d, Section::Ramcell, entry_lines(s)) == (
            DocV { ramcell: upsert_all(d.ramcell, s), ..d },
            Section::Ramcell,
        ),
    decreases s.len(),
{
    if s.len() == 0 {
        assert(entry_lines(s) =~= Seq::<Seq<char>>::empty());
        assert(DocV { ramcell: d.ramcell, ..d } =~= d);
    } else {
        lemma_entry_line_parses(s[0]);
        let l = entry_line(s[0]);
        assert((EntryV { name: line_name(l), raster: line_raster(l) }) =~= s[0]);
        let d1 = DocV { ramcell: upsert(d.ramcell, s[0]), ..d };
        assert(decode_step(d, Section::Ramcell, l) == (d1, Section::Ramcell));
        assert(entry_lines(s)[0] == l);
        assert(entry_lines(s).drop_first() =~= entry_lines(s.drop_first()));
        lemma_ramcell_run(d1, s.drop_first());
        assert(DocV { ramcell: upsert_all(d1.ramcell, s.drop_first()), ..d1 } =~= DocV {
            ramcell: upsert_all(d.ramcell, s),
            ..d
        });
    }
}

/// Canonical settings text: empty, or made of canonical settings lines.
pub open spec fn canonical_settings(s: Seq<char>) -> bool {
    s.len() == 0 || (forall|i: int|
        0 <= i < split_lines(s).len() ==> canonical_settings_line(#[trigger] split_lines(s)[i]))
}

/// A canonical document: well-formed, with canonical settings text and
/// canonical entries throughout. Exactly these documents survive the trip
/// through their own canonical text.
pub open spec fn canonical_doc(d: DocV) -> bool {
    &&& d.wf()
    &&& canonical_settings(d.settings)
    &&& canonical_entries(d.label)
    &&& canonical_entries(d.ramcell)
}

/// Running the decoder over the settings block of a canonical document
/// restores its settings text and leaves the decoder in the settings
/// section.
proof fn lemma_settings_block(d: DocV)
    requires
        canonical_settings(d.settings),
    ensures
        decode_run(
            empty_doc(),
            Section::Settings,
            seq![settings_tok()] + split_lines(d.settings) + seq![Seq::<char>::empty()],
        ) == (
            DocV {
                settings: d.settings,
                label: Seq::<EntryV>::empty(),
                ramcell: Seq::<EntryV>::empty(),
            },
            Section::Settings,
        ),
{
    let sl = split_lines(d.settings);
    let blank = seq![Seq::<char>::empty()];
    let seg = seq![settings_tok()] + sl + blank;
    assert(seg =~= seq![settings_tok()] + (sl + blank));
    lemma_run_app(empty_doc(), Section::Settings, seq![settings_tok()], sl + blank);
    lemma_run_one(empty_doc(), Section::Settings, settings_tok());
    lemma_token_step(empty_doc(), Section::Settings);
    lemma_run_app(empty_doc(), Section::Settings, sl, blank);
    let mid = decode_run(empty_doc(), Section::Settings, sl);
    if d.settings.len() == 0 {
        assert(d.settings =~= Seq::<char>::empty());
        assert(sl == seq![Seq::<char>::empty()]);
        lemma_run_one(empty_doc(), Section::Settings, Seq::<char>::empty());
        lemma_blank_step(empty_doc(), Section::Settings);
        assert(mid == (empty_doc(), Section::Settings));
        assert(mid.0 =~= DocV {
            settings: d.settings,
            label: Seq::<EntryV>::empty(),
            ramcell: Seq::<EntryV>::empty(),
        });
    } else {
        lemma_settings_run(empty_doc(), sl);
        crate::text::lemma_join_split(d.settings);
        assert(mid.0 =~= DocV {
            settings: d.settings,
            label: Seq::<EntryV>::empty(),
            ramcell: Seq::<EntryV>::empty(),
        });
    }
    lemma_run_one(mid.0, mid.1, Seq::<char>::empty());
    lemma_blank_step(mid.0, mid.1);
}

/// Running the decoder over the label block (empty when there are no
/// labels) upserts every label entry.
proof fn lemma_label_block(d: DocV, sec: Section, s: Seq<EntryV>)
    requires
        canonical_entries(s),
    ensures
        decode_run(
            d,
            sec,
            if s.len() > 0 {
                seq![label_tok()] + entry_lines(s) + seq![Seq::<char>::empty()]
            } else {
                Seq::<Seq<char>>::empty()
            },
        ) == (
            DocV { label: upsert_all(d.label, s), ..d },
            if s.len() > 0 {
                Section::Label
            } else {
                sec
            },
        ),
{
    if s.len() == 0 {
        assert(DocV { label: upsert_all(d.label, s), ..d } =~= d);
    } else {
        let blank = seq![Seq::<char>::empty()];
        let seg = seq![label_tok()] + entry_lines(s) + blank;
        assert(seg =~= seq![label_tok()] + (entry_lines(s) + blank));
        lemma_run_app(d, sec, seq![label_tok()], entry_lines(s) + blank);
        lemma_run_one(d, sec, label_tok());
        lemma_token_step(d, sec);
        lemma_run_app(d, Section::Label, entry_lines(s), blank);
        lemma_label_run(d, s);
        let d1 = DocV { label: upsert_all(d.label, s), ..d };
        lemma_run_one(d1, Section::Label, Seq::<char>::empty());
        lemma_blank_step(d1, Section::Label);
    }
}

/// Running the decoder over the ramcell block (empty when there are no
/// ramcells) upserts every ramcell entry.
proof fn lemma_ramcell_block(d: DocV, sec: Section, s: Seq<EntryV>)
    requires
        canonical_entries(s),
    ensures
        decode_run(
            d,
            sec,
            if s.len() > 0 {
                seq![ramcell_tok()] + entry_lines(s) + seq![Seq::<char>::empty()]
            } else {
                Seq::<Seq<char>>::empty()
            },
        ) == (
            DocV { ramcell: upsert_all(d.ramcell, s), ..d },
            if s.len() > 0 {
                Section::Ramcell
            } else {
                sec
            },
        ),
{
    if s.len() == 0 {
        assert(DocV { ramcell: upsert_all(d.ramcell, s), ..d } =~= d);
    } else {
        let blank = seq![Seq::<char>::empty()];
        let seg = seq![ramcell_tok()] + entry_lines(s) + blank;
        assert(seg =~= seq![ramcell_tok()] + (entry_lines(s) + blank));
        lemma_run_app(d, sec, seq![ramcell_tok()], entry_lines(s) + blank);
        lemma_run_one(d, sec, ramcell_tok());
        lemma_token_step(d, sec);
        lemma_run_app(d, Section::Ramcell, entry_lines(s), blank);
        lemma_ramcell_run(d, s);
        let d1 = DocV { ramcell: upsert_all(d.ramcell, s), ..d };
        lemma_run_one(d1, Section::Ramcell, Seq::<char>::empty());
        lemma_blank_step(d1, Section::Ramcell);
    }
}

/// Round trip: the canonical text of a canonical document decodes back to
/// the document itself, settings, labels and ramcells alike.
pub proof fn lemma_round_trip(d: DocV)
    requires
        canonical_doc(d),
    ensures
        decode_text(encode_text(d)) == d,
{
    lemma_token_chars();
    lemma_encode_is_unlines(d);
    let blank = seq![Seq::<char>::empty()];
    let sl = split_lines(d.settings);
    let seg_s = seq![settings_tok()] + sl + blank;
    let seg_l = if d.label.len() > 0 {
        seq![label_tok()] + entry_lines(d.label) + blank
    } else {
        Seq::<Seq<char>>::empty()
    };
    let seg_r = if d.ramcell.len() > 0 {
        seq![ramcell_tok()] + entry_lines(d.ramcell) + blank
    } else {
        Seq::<Seq<char>>::empty()
    };
    let dl = doc_lines(d);
    // every line of the document's text is newline-free
    crate::text::lemma_split_lines_free(d.settings);
    assert(!has_char(Seq::<char>::empty(), '\n')) by {
        if has_char(Seq::<char>::empty(), '\n') {
            let i = choose|i: int| 0 <= i < 0 && Seq::<char>::empty()[i] == '\n';
        }
    }
    assert forall|i: int| 0 <= i < dl.len() implies !has_char(#[trigger] dl[i], '\n') by {
        assert(dl =~= seg_s + seg_l + seg_r);
        if i < seg_s.len() {
            assert(dl[i] == seg_s[i]);
            if i == 0 {
            } else if i < 1 + sl.len() {
                assert(seg_s[i] == sl[i - 1]);
            } else {
                assert(seg_s[i] == Seq::<char>::empty());
            }
        } else if i < seg_s.len() + seg_l.len() {
            let j = i - seg_s.len();
            assert(dl[i] == seg_l[j]);
            if j == 0 {
            } else if j < 1 + entry_lines(d.label).len() {
                assert(seg_l[j] == entry_lines(d.label)[j - 1]);
                assert(entry_lines(d.label)[j - 1] == entry_line(d.label[j - 1]));
                lemma_entry_line_parses(d.label[j - 1]);
            } else {
                assert(seg_l[j] == Seq::<char>::empty());
            }
        } else {
            let j = i - seg_s.len() - seg_l.len();
            assert(dl[i] == seg_r[j]);
            if j == 0 {
            } else if j < 1 + entry_lines(d.ramcell).len() {
                assert(seg_r[j] == entry_lines(d.ramcell)[j - 1]);
                assert(entry_lines(d.ramcell)[j - 1] == entry_line(d.ramcell[j - 1]));
                lemma_entry_line_parses(d.ramcell[j - 1]);
            } else {
                assert(seg_r[j] == Seq::<char>::empty());
            }
        }
    }
    crate::text::lemma_split_unlines(dl);
    assert(split_lines(encode_text(d)) == dl + blank);
    // fold the decoder over the blocks in turn
    assert(dl + blank =~= seg_s + (seg_l + (seg_r + blank)));
    lemma_run_app(empty_doc(), Section::Settings, seg_s, seg_l + (seg_r + blank));
    lemma_settings_block(d);
    let d1 = DocV {
        settings: d.settings,
        label: Seq::<EntryV>::empty(),
        ramcell: Seq::<EntryV>::empty(),
    };
    lemma_run_app(d1, Section::Settings, seg_l, seg_r + blank);
    lemma_label_block(d1, Section::Settings, d.label);
    lemma_upsert_all_disjoint(Seq::<EntryV>::empty(), d.label);
    assert(Seq::<EntryV>::empty() + d.label =~= d.label);
    let d2 = DocV { label: d.label, ..d1 };
    let sec2 = if d.label.len() > 0 {
        Section::Label
    } else {
        Section::Settings
    };
    assert(decode_run(d1, Section::Settings, seg_l) == (d2, sec2)) by {
        assert(DocV { label: upsert_all(d1.label, d.label), ..d1 } =~= d2);
    }
    lemma_run_app(d2, sec2, seg_r, blank);
    lemma_ramcell_block(d2, sec2, d.ramcell);
    lemma_upsert_all_disjoint(Seq::<EntryV>::empty(), d.ramcell);
    assert(Seq::<EntryV>::empty() + d.ramcell =~= d.ramcell);
    let d3 = DocV { ramcell: d.ramcell, ..d2 };
    let sec3 = if d.ramcell.len() > 0 {
        Section::Ramcell
    } else {
        sec2
    };
    assert(decode_run(d2, sec2, seg_r) == (d3, sec3)) by {
        assert(DocV { ramcell: upsert_all(d2.ramcell, d.ramcell), ..d2 } =~= d3);
    }
    lemma_run_one(d3, sec3, Seq::<char>::empty());
    lemma_blank_step(d3, sec3);
    assert(d3 =~= d);
}

} // verus!
