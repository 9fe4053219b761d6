//! The canonical text form of a document: the encoder that renders it and
//! the decoder that reads it back, both specified against one line-level
//! model of the format.

use vstd::prelude::*;

use crate::entry::{Entry, EntryV};
use crate::doc::{DocV, LabFile, upsert, views_of};
use crate::text::{clean_line_of, find_from, split_lines, starts_with_seq, trim_seq};
use crate::text::{find_char_from, has_prefix, trim_str};

verus! {

/// The section header token that opens the settings block.
pub open spec fn settings_tok() -> Seq<char> {
    "[SETTINGS]"@
}

/// The section header token that opens the label block.
pub open spec fn label_tok() -> Seq<char> {
    "[LABEL]"@
}

/// The section header token that opens the ramcell block.
pub open spec fn ramcell_tok() -> Seq<char> {
    "[RAMCELL]"@
}

/// A single newline.
pub open spec fn nl() -> Seq<char> {
    seq!['\n']
}

/// The rendered line of one entry: `name; raster;`, or `name;` when the
/// raster is empty.
pub open spec fn entry_line(e: EntryV) -> Seq<char> {
    if e.raster.len() == 0 {
        e.name + seq![';']
    } else {
        e.name + seq![';', ' '] + e.raster + seq![';']
    }
}

/// The rendered lines of a collection, each terminated by a newline.
pub open spec fn render_entries(s: Seq<EntryV>) -> Seq<char>
    decreases s.len(),
{
    if s.len() == 0 {
        Seq::<char>::empty()
    } else {
        entry_line(s[0]) + nl() + render_entries(s.drop_first())
    }
}

/// The canonical text of a document: the settings block, then a label block
/// if there are labels, then a ramcell block if there are ramcells.
pub open spec fn encode_text(d: DocV) -> Seq<char> {
    settings_tok() + nl() + d.settings + nl() + nl() + (
    if d.label.len() > 0 {
        label_tok() + nl() + render_entries(d.label) + nl()
    } else {
        Seq::<char>::empty()
    }) + (
    if d.ramcell.len() > 0 {
        ramcell_tok() + nl() + render_entries(d.ramcell) + nl()
    } else {
        Seq::<char>::empty()
    })
}

/// The decoder's position: which section content lines currently belong to.
pub enum Section {
    Settings,
    Label,
    Ramcell,
}

/// A document with no settings text and no entries.
pub open spec fn empty_doc() -> DocV {
    DocV {
        settings: Seq::<char>::empty(),
        label: Seq::<EntryV>::empty(),
        ramcell: Seq::<EntryV>::empty(),
    }
}

/// A settings content line accumulates into the settings text, separated by
/// a newline once some text is already there.
pub open spec fn add_settings_line(d: DocV, t: Seq<char>) -> DocV {
    DocV {
        settings: if d.settings.len() == 0 {
            t
        } else {
            d.settings + nl() + t
        },
        ..d
    }
}

/// The name field of a content line: the text before the first `;` (the
/// whole line if there is none), trimmed.
pub open spec fn line_name(l: Seq<char>) -> Seq<char> {
    trim_seq(l.take(find_from(l, 0, ';')))
}

/// The raster field of a content line: the text between the first `;` and
/// the second (or the end), trimmed; empty when the line has no `;`.
pub open spec fn line_raster(l: Seq<char>) -> Seq<char> {
    let j1 = find_from(l, 0, ';');
    if j1 == l.len() {
        Seq::<char>::empty()
    } else {
        trim_seq(l.subrange(j1 + 1, find_from(l, j1 + 1, ';')))
    }
}

/// One decoder step: a blank line is ignored, a section token switches the
/// section, and any other line is content of the current section.
pub open spec fn decode_step(d: DocV, sec: Section, line: Seq<char>) -> (DocV, Section) {
    let l = clean_line_of(line);
    if l.len() == 0 {
        (d, sec)
    } else if starts_with_seq(l, settings_tok()) {
        (d, Section::Settings)
    } else if starts_with_seq(l, label_tok()) {
        (d, Section::Label)
    } else if starts_with_seq(l, ramcell_tok()) {
        (d, Section::Ramcell)
    } else {
        match sec {
            Section::Settings => (add_settings_line(d, trim_seq(l)), sec),
            Section::Label => (
                DocV {
                    label: upsert(
                        d.label,
                        EntryV { name: line_name(l), raster: line_raster(l) },
                    ),
                    ..d
                },
                sec,
            ),
            Section::Ramcell => (
                DocV {
                    ramcell: upsert(
                        d.ramcell,
                        EntryV { name: line_name(l), raster: line_raster(l) },
                    ),
                    ..d
                },
                sec,
            ),
        }
    }
}

/// The decoder folded over a list of lines.
pub open spec fn decode_run(d: DocV, sec: Section, lines: Seq<Seq<char>>) -> (DocV, Section)
    decreases lines.len(),
{
    if lines.len() == 0 {
        (d, sec)
    } else {
        let st = decode_step(d, sec, lines[0]);
        decode_run(st.0, st.1, lines.drop_first())
    }
}

/// The document read from a whole text: its lines folded through the
/// decoder, starting in the settings section with an empty document.
pub open spec fn decode_text(s: Seq<char>) -> DocV {
    decode_run(empty_doc(), Section::Settings, split_lines(s)).0
}

impl LabFile {
    /// Renders the document as canonical LAB text.
    pub fn encode(&self) -> (r: String)
        ensures
            r@ == encode_text(self@),
    {
        proof {
            reveal_strlit("\n");
        }
        let mut out: String = String::from_str("[SETTINGS]");
        out.append("\n");
        out.append(self.settings.as_str());
        out.append("\n");
        out.append("\n");
        proof {
            assert("\n"@ =~= nl());
            assert(out@ =~= settings_tok() + nl() + self@.settings + nl() + nl());
        }
        let ghost head = out@;
        if self.label.len() > 0 {
            out.append("[LABEL]");
            out.append("\n");
            append_entries(&mut out, &self.label);
            out.append("\n");
            proof {
                assert(out@ =~= head + (label_tok() + nl() + render_entries(self@.label) + nl()));
            }
        }
        let ghost mid = out@;
        if self.ramcell.len() > 0 {
            out.append("[RAMCELL]");
            out.append("\n");
            append_entries(&mut out, &self.ramcell);
            out.append("\n");
            proof {
                assert(out@ =~= mid + (ramcell_tok() + nl() + render_entries(self@.ramcell)
                    + nl()));
            }
        }
        proof {
            assert(out@ =~= encode_text(self@));
        }
        out
    }
}

/// Appends the rendered line of every entry of `v`, in order.
fn append_entries(out: &mut String, v: &Vec<Entry>)
    ensures
        final(out)@ == old(out)@ + render_entries(views_of(v@)),
{
    proof {
        reveal_strlit("\n");
        reveal_strlit(";");
        reveal_strlit("; ");
    }
    let mut i: usize = 0;
    proof {
        assert(v@.take(0) =~= Seq::<Entry>::empty());
        assert(out@ =~= old(out)@ + render_entries(views_of(v@.take(0))));
    }
    while i < v.len()
        invariant
            0 <= i <= v@.len(),
            out@ == old(out)@ + render_entries(views_of(v@.take(i as int))),
        decreases v@.len() - i,
    {
        proof {
            reveal_strlit("\n");
            reveal_strlit(";");
            reveal_strlit("; ");
        }
        let e = &v[i];
        out.append(e.name.as_str());
        if e.raster.as_str().is_empty() {
            out.append(";");
            proof {
                assert(";"@ =~= seq![';']);
            }
        } else {
            out.append("; ");
            out.append(e.raster.as_str());
            out.append(";");
            proof {
                assert(";"@ =~= seq![';']);
                assert("; "@ =~= seq![';', ' ']);
            }
        }
        out.append("\n");
        proof {
            assert("\n"@ =~= nl());
            assert(v@.take(i as int).push(v@[i as int]) =~= v@.take(i as int + 1));
            assert(views_of(v@.take(i as int)).push(v@[i as int]@) =~= views_of(
                v@.take(i as int + 1),
            ));
            lemma_render_push(views_of(v@.take(i as int)), v@[i as int]@);
            assert(out@ =~= old(out)@ + render_entries(views_of(v@.take(i as int + 1))));
        }
        i = i + 1;
    }
    proof {
        assert(v@.take(v@.len() as int) =~= v@);
    }
}

impl LabFile {
    /// Reads a document from LAB text: the text is split into lines at
    /// newlines and each line is applied in order, starting in the settings
    /// section with an empty document.
    pub fn decode(text: &str) -> (r: LabFile)
        ensures
            r@ == decode_text(text@),
            r@.wf(),
    {
        let mut doc = LabFile::new("");
        proof {
            reveal_strlit("");
            assert(""@ =~= Seq::<char>::empty());
            assert(trim_seq(Seq::<char>::empty()) =~= Seq::<char>::empty());
            assert(doc@ =~= empty_doc());
        }
        let mut sec = Section::Settings;
        let n: usize = text.unicode_len();
        let mut start: usize = 0;
        let mut i: usize = 0;
        proof {
            assert(text@.skip(0) =~= text@);
        }
        while i < n
            invariant
                0 <= start <= i <= n,
                n == text@.len(),
                doc@.wf(),
                forall|k: int| start <= k < i ==> text@[k] != '\n',
                decode_run(empty_doc(), Section::Settings, split_lines(text@)) == decode_run(
                    doc@,
                    sec,
                    split_lines(text@.skip(start as int)),
                ),
            decreases n - i,
        {
            if text.get_char(i) == '\n' {
                let ghost a = text@.subrange(start as int, i as int);
                let ghost rest = split_lines(text@.skip(i as int + 1));
                proof {
                    assert(!crate::text::has_char(a, '\n')) by {
                        if crate::text::has_char(a, '\n') {
                            let k = choose|k: int| 0 <= k < a.len() && a[k] == '\n';
                            assert(text@[start + k] == '\n');
                        }
                    }
                    assert(text@.skip(start as int) =~= a + seq!['\n'] + text@.skip(i as int + 1));
                    crate::text::lemma_split_concat(a, text@.skip(i as int + 1));
                    assert((seq![a] + rest)[0] == a);
                    assert((seq![a] + rest).drop_first() =~= rest);
                }
                let seg: &str = text.substring_char(start, i);
                let ghost d0 = doc@;
                let ghost s0 = sec;
                sec = apply_line(&mut doc, sec, seg);
                proof {
                    let st = decode_step(d0, s0, a);
                    assert((doc@, sec) == st);
                    assert(decode_run(d0, s0, seq![a] + rest) == decode_run(st.0, st.1, rest));
                }
                start = i + 1;
            }
            i = i + 1;
        }
        let ghost a = text@.subrange(start as int, n as int);
        proof {
            assert(!crate::text::has_char(a, '\n')) by {
                if crate::text::has_char(a, '\n') {
                    let k = choose|k: int| 0 <= k < a.len() && a[k] == '\n';
                    assert(text@[start + k] == '\n');
                }
            }
            assert(text@.skip(start as int) =~= a);
            crate::text::lemma_split_no_newline(a);
        }
        let seg: &str = text.substring_char(start, n);
        let ghost d0 = doc@;
        let ghost s0 = sec;
        sec = apply_line(&mut doc, sec, seg);
        proof {
            let st = decode_step(d0, s0, a);
            assert((doc@, sec) == st);
            assert(seq![a].drop_first() =~= Seq::<Seq<char>>::empty());
            assert(decode_run(d0, s0, seq![a]) == decode_run(st.0, st.1, seq![a].drop_first()));
        }
        doc
    }
}

/// Applies one raw line to the document and hands back the section that the
/// following lines belong to.
fn apply_line(doc: &mut LabFile, sec: Section, line: &str) -> (ns: Section)
    ensures
        (final(doc)@, ns) == decode_step(old(doc)@, sec, line@),
        old(doc)@.wf() ==> final(doc)@.wf(),
{
    let ghost s0 = sec;
    let n0: usize = line.unicode_len();
    let l: &str = if n0 > 0 && line.get_char(n0 - 1) == '\r' {
        let t = line.substring_char(0, n0 - 1);
        proof {
            assert(line@.drop_last() =~= line@.subrange(0, n0 as int - 1));
        }
        t
    } else {
        line
    };
    proof {
        assert(l@ == clean_line_of(line@));
    }
    let nlen: usize = l.unicode_len();
    if nlen == 0 {
        return sec;
    }
    if has_prefix(l, "[SETTINGS]") {
        return Section::Settings;
    }
    if has_prefix(l, "[LABEL]") {
        return Section::Label;
    }
    if has_prefix(l, "[RAMCELL]") {
        return Section::Ramcell;
    }
    match sec {
        Section::Settings => {
            let t = trim_str(l);
            proof {
                reveal_strlit("\n");
                assert("\n"@ =~= nl());
            }
            if doc.settings.as_str().unicode_len() > 0 {
                doc.settings.append("\n");
            }
            doc.settings.append(t.as_str());
            proof {
                assert(doc@ =~= add_settings_line(old(doc)@, trim_seq(l@)));
            }
            Section::Settings
        },
        Section::Label => {
            let j1: usize = find_char_from(l, 0, ';');
            proof {
                crate::text::lemma_find_from(l@, 0, ';');
            }
            if j1 == nlen {
                let nm = trim_str(l);
                proof {
                    reveal_strlit("");
                    assert(""@ =~= Seq::<char>::empty());
                    assert(l@.take(j1 as int) =~= l@);
                }
                doc.add_label(nm.as_str(), "");
            } else {
                let j2: usize = find_char_from(l, j1 + 1, ';');
                proof {
                    crate::text::lemma_find_from(l@, j1 as int + 1, ';');
                }
                let nm = trim_str(l.substring_char(0, j1));
                let rs = trim_str(l.substring_char(j1 + 1, j2));
                proof {
                    assert(l@.subrange(0, j1 as int) =~= l@.take(j1 as int));
                }
                doc.add_label(nm.as_str(), rs.as_str());
            }
            proof {
                assert(doc@ =~= decode_step(old(doc)@, s0, line@).0);
            }
            Section::Label
        },
        Section::Ramcell => {
            let j1: usize = find_char_from(l, 0, ';');
            proof {
                crate::text::lemma_find_from(l@, 0, ';');
            }
            if j1 == nlen {
                let nm = trim_str(l);
                proof {
                    reveal_strlit("");
                    assert(""@ =~= Seq::<char>::empty());
                    assert(l@.take(j1 as int) =~= l@);
                }
                doc.add_ramcell(nm.as_str(), "");
            } else {
                let j2: usize = find_char_from(l, j1 + 1, ';');
                proof {
                    crate::text::lemma_find_from(l@, j1 as int + 1, ';');
                }
                let nm = trim_str(l.substring_char(0, j1));
                let rs = trim_str(l.substring_char(j1 + 1, j2));
                proof {
                    assert(l@.subrange(0, j1 as int) =~= l@.take(j1 as int));
                }
                doc.add_ramcell(nm.as_str(), rs.as_str());
            }
            proof {
                assert(doc@ =~= decode_step(old(doc)@, s0, line@).0);
            }
            Section::Ramcell
        },
    }
}

/// Rendering one more entry appends its line.
pub proof fn lemma_render_push(s: Seq<EntryV>, x: EntryV)
    ensures
        render_entries(s.push(x)) == render_entries(s) + entry_line(x) + nl(),
    decreases s.len(),
{
    if s.len() == 0 {
        assert(s.push(x)[0] == x);
        assert(s.push(x).drop_first() =~= s);
        assert(render_entries(s.push(x)) =~= render_entries(s) + entry_line(x) + nl());
    } else {
        assert(s.push(x)[0] == s[0]);
        assert(s.push(x).drop_first() =~= s.drop_first().push(x));
        lemma_render_push(s.drop_first(), x);
        assert(render_entries(s.push(x)) =~= render_entries(s) + entry_line(x) + nl());
    }
}

} // verus!
