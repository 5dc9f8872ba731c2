use vstd::prelude::*;
use vstd::slice::slice_subrange;
use vstd::string::*;

use crate::engine::{FileOp, FileOpView};
use crate::error::{EngineError, Result};
use crate::format::push_bytes;
use crate::index::{compare_bytes, ByteOrder};
use crate::text::{decimal, digits_to_string, lemma_decimal, lemma_parse_decimal, parse_decimal, parse_u64, u64_to_decimal};

verus! {

/// The ids the engine resumes from after a restart: the next SSTable, WAL
/// segment, manifest segment and sequence number to hand out.
#[derive(Debug, Clone, Copy, PartialEq, Eq, Structural)]
pub struct CurrentState {
    pub next_sstable_id: u64,
    pub next_wal_id: u64,
    pub next_manifest_id: u64,
    pub next_sequence_id: u64,
}

/// The state of a fresh data directory.
pub open spec fn default_state() -> CurrentState {
    CurrentState { next_sstable_id: 0, next_wal_id: 0, next_manifest_id: 0, next_sequence_id: 1 }
}

impl Default for CurrentState {
    /// The state of a fresh data directory: sequence numbers start at 1,
    /// everything else at 0.
    fn default() -> (s: Self)
        ensures
            s == default_state(),
    {
        CurrentState { next_sstable_id: 0, next_wal_id: 0, next_manifest_id: 0, next_sequence_id: 1 }
    }
}

/// The bytes of the four field names.
pub open spec fn name_sstable() -> Seq<u8> {
    "next_sstable_id".spec_bytes()
}

pub open spec fn name_wal() -> Seq<u8> {
    "next_wal_id".spec_bytes()
}

pub open spec fn name_manifest() -> Seq<u8> {
    "next_manifest_id".spec_bytes()
}

pub open spec fn name_sequence() -> Seq<u8> {
    "next_sequence_id".spec_bytes()
}

/// The text of the `CURRENT` file: one `name=value` line per field.
pub open spec fn current_bytes(s: CurrentState) -> Seq<u8> {
    name_sstable() + seq![61u8] + decimal(s.next_sstable_id as nat) + seq![10u8] + name_wal() + seq![
        61u8,
    ] + decimal(s.next_wal_id as nat) + seq![10u8] + name_manifest() + seq![61u8] + decimal(
        s.next_manifest_id as nat,
    ) + seq![10u8] + name_sequence() + seq![61u8] + decimal(s.next_sequence_id as nat) + seq![10u8]
}

/// Index of the first `b` in `s`, or the length of `s` when there is none.
pub open spec fn first_index(s: Seq<u8>, b: u8) -> nat
    decreases s.len(),
{
    if s.len() == 0 {
        0
    } else if s[0] == b {
        0
    } else {
        1 + first_index(s.drop_first(), b)
    }
}

/// The lines of a text as `str::lines` gives them: split at each `\n`,
/// with a `\r` before the `\n` removed; a final `\n` ends the last line
/// rather than starting an empty one.
pub open spec fn text_lines(s: Seq<u8>) -> Seq<Seq<u8>>
    decreases s.len(),
{
    if s.len() == 0 {
        Seq::empty()
    } else {
        let i = first_index(s, 10u8) as int;
        if i >= s.len() {
            seq![s]
        } else {
            let line = s.take(i);
            let line = if line.len() > 0 && line.last() == 13u8 {
                line.drop_last()
            } else {
                line
            };
            seq![line] + text_lines(s.skip(i + 1))
        }
    }
}

/// The state after one `name=value` line, or why the line is refused.
pub open spec fn apply_current_line(st: CurrentState, line: Seq<u8>) -> core::result::Result<
    CurrentState,
    EngineError,
> {
    let i = first_index(line, 61u8) as int;
    if i >= line.len() {
        Err(EngineError::CorruptFormat("invalid CURRENT line"))
    } else {
        let key = line.take(i);
        match parse_decimal(line.skip(i + 1)) {
            None => Err(EngineError::CorruptFormat("invalid CURRENT value")),
            Some(v) => if key == name_sstable() {
                Ok(CurrentState { next_sstable_id: v, ..st })
            } else if key == name_wal() {
                Ok(CurrentState { next_wal_id: v, ..st })
            } else if key == name_manifest() {
                Ok(CurrentState { next_manifest_id: v, ..st })
            } else if key == name_sequence() {
                Ok(CurrentState { next_sequence_id: v, ..st })
            } else {
                Err(EngineError::CorruptFormat("unknown CURRENT key"))
            },
        }
    }
}

/// The state after the lines in order, starting from `st`, or the first
/// line's refusal.
pub open spec fn apply_current_lines(st: CurrentState, lines: Seq<Seq<u8>>) -> core::result::Result<
    CurrentState,
    EngineError,
>
    decreases lines.len(),
{
    if lines.len() == 0 {
        Ok(st)
    } else {
        match apply_current_line(st, lines[0]) {
            Ok(st2) => apply_current_lines(st2, lines.drop_first()),
            Err(e) => Err(e),
        }
    }
}

/// What the text of a `CURRENT` file decodes to: the fresh state with each
/// line applied in order.
pub open spec fn parse_current(s: Seq<u8>) -> core::result::Result<CurrentState, EngineError> {
    apply_current_lines(default_state(), text_lines(s))
}

/// The first `b` in `a + [b] + r` is the one after `a` when `a` has none.
proof fn lemma_first_index_after(a: Seq<u8>, b: u8, r: Seq<u8>)
    requires
        forall|i: int| 0 <= i < a.len() ==> a[i] != b,
    ensures
        first_index(a + seq![b] + r, b) == a.len(),
    decreases a.len(),
{
    if a.len() > 0 {
        assert((a + seq![b] + r).drop_first() =~= a.drop_first() + seq![b] + r);
        lemma_first_index_after(a.drop_first(), b, r);
    }
}

/// The bytes of the field names.
proof fn lemma_names()
    ensures
        name_sstable() =~= seq![110u8, 101, 120, 116, 95, 115, 115, 116, 97, 98, 108, 101, 95, 105, 100],
        name_wal() =~= seq![110u8, 101, 120, 116, 95, 119, 97, 108, 95, 105, 100],
        name_manifest() =~= seq![110u8, 101, 120, 116, 95, 109, 97, 110, 105, 102, 101, 115, 116, 95, 105, 100],
        name_sequence() =~= seq![110u8, 101, 120, 116, 95, 115, 101, 113, 117, 101, 110, 99, 101, 95, 105, 100],
{
    reveal_strlit("next_sstable_id");
    reveal_strlit("next_wal_id");
    reveal_strlit("next_manifest_id");
    reveal_strlit("next_sequence_id");
    broadcast use is_ascii_spec_bytes;
    assert(is_ascii("next_sstable_id"));
    assert(is_ascii("next_wal_id"));
    assert(is_ascii("next_manifest_id"));
    assert(is_ascii("next_sequence_id"));
}

/// One `name=digits` line followed by a newline and more text.
proof fn lemma_one_line(name: Seq<u8>, v: u64, rest: Seq<u8>)
    requires
        name.len() > 0,
        forall|i: int| 0 <= i < name.len() ==> name[i] != 10u8 && name[i] != 61u8,
    ensures
        ({
            let line = name + seq![61u8] + decimal(v as nat);
            &&& text_lines(line + seq![10u8] + rest) == seq![line] + text_lines(rest)
            &&& first_index(line, 61u8) == name.len()
            &&& line.take(name.len() as int) == name
            &&& parse_decimal(line.skip(name.len() + 1int)) == Some(v)
        }),
{
    let d = decimal(v as nat);
    let line = name + seq![61u8] + d;
    lemma_parse_decimal(v, 0);
    lemma_decimal(v as nat);
    assert forall|i: int| 0 <= i < line.len() implies line[i] != 10u8 by {
        if i > name.len() {
            assert(line[i] == d[i - name.len() - 1]);
        }
    }
    lemma_first_index_after(line, 10u8, rest);
    let all = line + seq![10u8] + rest;
    assert(all.take(line.len() as int) =~= line);
    assert(all.skip(line.len() + 1int) =~= rest);
    assert(line.last() == d.last());
    lemma_first_index_after(name, 61u8, d);
    assert(line.take(name.len() as int) =~= name);
    assert(line.skip(name.len() + 1int) =~= d);
}

/// The four lines of the text of a state.
spec fn state_lines(st: CurrentState) -> Seq<Seq<u8>> {
    seq![
        name_sstable() + seq![61u8] + decimal(st.next_sstable_id as nat),
        name_wal() + seq![61u8] + decimal(st.next_wal_id as nat),
        name_manifest() + seq![61u8] + decimal(st.next_manifest_id as nat),
        name_sequence() + seq![61u8] + decimal(st.next_sequence_id as nat),
    ]
}

/// No field name holds a newline or an equals sign.
proof fn lemma_names_plain()
    ensures
        name_sstable().len() > 0 && forall|i: int| 0 <= i < name_sstable().len() ==> name_sstable()[i] != 10u8 && name_sstable()[i] != 61u8,
        name_wal().len() > 0 && forall|i: int| 0 <= i < name_wal().len() ==> name_wal()[i] != 10u8 && name_wal()[i] != 61u8,
        name_manifest().len() > 0 && forall|i: int| 0 <= i < name_manifest().len() ==> name_manifest()[i] != 10u8 && name_manifest()[i] != 61u8,
        name_sequence().len() > 0 && forall|i: int| 0 <= i < name_sequence().len() ==> name_sequence()[i] != 10u8 && name_sequence()[i] != 61u8,
        name_wal() != name_sstable(),
        name_manifest() != name_sstable(),
        name_manifest() != name_wal(),
        name_sequence() != name_sstable(),
        name_sequence() != name_wal(),
        name_sequence() != name_manifest(),
{
    lemma_names();
    assert(name_sequence()[5] != name_manifest()[5]);
}

/// The text of a state splits into its four lines.
#[verifier::rlimit(40)]
proof fn lemma_current_lines(st: CurrentState)
    ensures
        text_lines(current_bytes(st)) == state_lines(st),
{
    lemma_names_plain();
    let ls = state_lines(st);
    let nl = seq![10u8];
    let r4 = ls[3] + nl;
    let r3 = ls[2] + nl + r4;
    let r2 = ls[1] + nl + r3;
    let all = ls[0] + nl + r2;
    assert(current_bytes(st) =~= all);
    lemma_one_line(name_sequence(), st.next_sequence_id, Seq::empty());
    assert(ls[3] + nl + Seq::<u8>::empty() =~= r4);
    lemma_one_line(name_manifest(), st.next_manifest_id, r4);
    lemma_one_line(name_wal(), st.next_wal_id, r3);
    lemma_one_line(name_sstable(), st.next_sstable_id, r2);
    assert(text_lines(Seq::<u8>::empty()) =~= Seq::<Seq<u8>>::empty());
    assert(text_lines(all) =~= ls);
}

/// Applying the four lines of a state to the fresh state gives the state.
#[verifier::rlimit(40)]
proof fn lemma_current_apply(st: CurrentState)
    ensures
        apply_current_lines(default_state(), state_lines(st)) == Ok::<CurrentState, EngineError>(st),
{
    lemma_names_plain();
    let ls = state_lines(st);
    lemma_one_line(name_sequence(), st.next_sequence_id, Seq::empty());
    lemma_one_line(name_manifest(), st.next_manifest_id, Seq::empty());
    lemma_one_line(name_wal(), st.next_wal_id, Seq::empty());
    lemma_one_line(name_sstable(), st.next_sstable_id, Seq::empty());
    let s1 = CurrentState { next_sstable_id: st.next_sstable_id, ..default_state() };
    let s2 = CurrentState { next_wal_id: st.next_wal_id, ..s1 };
    let s3 = CurrentState { next_manifest_id: st.next_manifest_id, ..s2 };
    assert(apply_current_line(default_state(), ls[0]) == Ok::<CurrentState, EngineError>(s1));
    assert(apply_current_line(s1, ls[1]) == Ok::<CurrentState, EngineError>(s2));
    assert(apply_current_line(s2, ls[2]) == Ok::<CurrentState, EngineError>(s3));
    assert(apply_current_line(s3, ls[3]) == Ok::<CurrentState, EngineError>(st));
    let t1 = ls.drop_first();
    let t2 = t1.drop_first();
    let t3 = t2.drop_first();
    let t4 = t3.drop_first();
    assert(t1[0] == ls[1] && t2[0] == ls[2] && t3[0] == ls[3]);
    assert(t4 =~= Seq::<Seq<u8>>::empty());
    assert(apply_current_lines(st, t4) == Ok::<CurrentState, EngineError>(st));
    assert(apply_current_lines(s3, t3) == Ok::<CurrentState, EngineError>(st));
    assert(apply_current_lines(s2, t2) == Ok::<CurrentState, EngineError>(st));
    assert(apply_current_lines(s1, t1) == Ok::<CurrentState, EngineError>(st));
}

/// The text of a state decodes back to the state.
pub proof fn lemma_current_round_trip(st: CurrentState)
    ensures
        parse_current(current_bytes(st)) == Ok::<CurrentState, EngineError>(st),
{
    lemma_current_lines(st);
    lemma_current_apply(st);
}

/// Whether a line is refused: it has no `=`, its value is not a decimal
/// `u64`, or its key names no field. Whether a line is refused does not
/// depend on the state it is applied to.
pub open spec fn refused_line(line: Seq<u8>) -> bool {
    apply_current_line(default_state(), line) is Err
}

/// Applying lines refuses them at the first refused line, always as a
/// corrupt format.
proof fn lemma_lines_refused(st: CurrentState, lines: Seq<Seq<u8>>, n: int)
    requires
        0 <= n < lines.len(),
        refused_line(lines[n]),
    ensures
        apply_current_lines(st, lines) matches Err(EngineError::CorruptFormat(_)),
    decreases lines.len(),
{
    if n > 0 {
        if let Ok(st2) = apply_current_line(st, lines[0]) {
            assert(lines.drop_first()[n - 1] == lines[n]);
            lemma_lines_refused(st2, lines.drop_first(), n - 1);
        }
    }
}

/// A text with a refused line does not decode: it is refused as a corrupt
/// format, whatever its other lines hold.
pub proof fn lemma_current_bad_line_refused(s: Seq<u8>, n: int)
    requires
        0 <= n < text_lines(s).len(),
        refused_line(text_lines(s)[n]),
    ensures
        parse_current(s) matches Err(EngineError::CorruptFormat(_)),
{
    lemma_lines_refused(default_state(), text_lines(s), n);
}

/// Index of the first `b` in `s` at or after `from`, or the length of `s`.
pub(crate) fn find_byte(s: &[u8], from: usize, b: u8) -> (r: usize)
    requires
        from <= s@.len(),
    ensures
        from <= r <= s@.len(),
        r - from == first_index(s@.skip(from as int), b),
{
    let mut i = from;
    while i < s.len() && s[i] != b
        invariant
            from <= i <= s@.len(),
            first_index(s@.skip(from as int), b) == (i - from) + first_index(s@.skip(i as int), b),
        decreases s@.len() - i,
    {
        assert(s@.skip(i as int).drop_first() =~= s@.skip(i + 1));
        i = i + 1;
    }
    i
}

impl CurrentState {
    /// The text of the `CURRENT` file for this state.
    pub fn encode(&self) -> (r: Vec<u8>)
        ensures
            r@ == current_bytes(*self),
    {
        let mut out: Vec<u8> = Vec::new();
        push_bytes(&mut out, "next_sstable_id".as_bytes());
        out.push(61u8);
        push_bytes(&mut out, u64_to_decimal(self.next_sstable_id).as_slice());
        out.push(10u8);
        push_bytes(&mut out, "next_wal_id".as_bytes());
        out.push(61u8);
        push_bytes(&mut out, u64_to_decimal(self.next_wal_id).as_slice());
        out.push(10u8);
        push_bytes(&mut out, "next_manifest_id".as_bytes());
        out.push(61u8);
        push_bytes(&mut out, u64_to_decimal(self.next_manifest_id).as_slice());
        out.push(10u8);
        push_bytes(&mut out, "next_sequence_id".as_bytes());
        out.push(61u8);
        push_bytes(&mut out, u64_to_decimal(self.next_sequence_id).as_slice());
        out.push(10u8);
        assert(out@ =~= current_bytes(*self));
        out
    }

    /// Applies one `name=value` line.
    fn apply_line(&mut self, line: &[u8]) -> (r: Result<()>)
        ensures
            match apply_current_line(*old(self), line@) {
                Ok(st) => r is Ok && *final(self) == st,
                Err(e) => r == Err::<(), EngineError>(e),
            },
    {
        let eq = find_byte(line, 0, 61u8);
        assert(line@.skip(0) =~= line@);
        if eq >= line.len() {
            return Err(EngineError::CorruptFormat("invalid CURRENT line"));
        }
        let key = slice_subrange(line, 0, eq);
        let value_bytes = slice_subrange(line, eq + 1, line.len());
        assert(key@ =~= line@.take(eq as int));
        assert(value_bytes@ =~= line@.skip(eq + 1));
        let value = match parse_u64(value_bytes) {
            Some(v) => v,
            None => {
                return Err(EngineError::CorruptFormat("invalid CURRENT value"));
            },
        };
        if compare_bytes(key, "next_sstable_id".as_bytes()) == ByteOrder::Equal {
            self.next_sstable_id = value;
        } else if compare_bytes(key, "next_wal_id".as_bytes()) == ByteOrder::Equal {
            self.next_wal_id = value;
        } else if compare_bytes(key, "next_manifest_id".as_bytes()) == ByteOrder::Equal {
            self.next_manifest_id = value;
        } else if compare_bytes(key, "next_sequence_id".as_bytes()) == ByteOrder::Equal {
            self.next_sequence_id = value;
        } else {
            return Err(EngineError::CorruptFormat("unknown CURRENT key"));
        }
        Ok(())
    }

    /// Decodes the text of a `CURRENT` file: each line sets one field of
    /// the fresh state; an empty text gives the fresh state.
    pub fn decode(contents: &[u8]) -> (r: Result<CurrentState>)
        ensures
            match parse_current(contents@) {
                Ok(st) => r == Ok::<CurrentState, EngineError>(st),
                Err(e) => r == Err::<CurrentState, EngineError>(e),
            },
    {
        let mut state = CurrentState::default();
        let mut pos: usize = 0;
        assert(contents@.skip(0) =~= contents@);
        while pos < contents.len()
            invariant
                pos <= contents@.len(),
                parse_current(contents@) == apply_current_lines(state, text_lines(contents@.skip(pos as int))),
            decreases contents@.len() - pos,
        {
            let ghost rest = contents@.skip(pos as int);
            let nl = find_byte(contents, pos, 10u8);
            let mut end = nl;
            if nl < contents.len() && end > pos && contents[end - 1] == 13u8 {
                end = end - 1;
            }
            let line = slice_subrange(contents, pos, end);
            proof {
                let i = first_index(rest, 10u8) as int;
                assert(i == nl - pos);
                if nl < contents.len() {
                    let l0 = rest.take(i);
                    if l0.len() > 0 && l0.last() == 13u8 {
                        assert(line@ =~= l0.drop_last());
                    } else {
                        assert(line@ =~= l0);
                    }
                    assert(rest.skip(i + 1) =~= contents@.skip(nl + 1));
                } else {
                    assert(line@ =~= rest);
                }
            }
            let ghost before = state;
            let ghost lines = text_lines(rest);
            state.apply_line(line)?;
            pos = if nl < contents.len() {
                nl + 1
            } else {
                contents.len()
            };
            proof {
                assert(lines[0] == line@);
                if nl < contents.len() {
                    assert(lines.drop_first() =~= text_lines(contents@.skip(pos as int)));
                } else {
                    assert(contents@.skip(pos as int) =~= Seq::<u8>::empty());
                    assert(lines.drop_first() =~= text_lines(contents@.skip(pos as int)));
                }
                assert(apply_current_lines(before, lines) == apply_current_lines(state, lines.drop_first()));
            }
        }
        assert(contents@.skip(pos as int) =~= Seq::<u8>::empty());
        Ok(state)
    }
}

/// The file that records the state, and the state it holds.
#[derive(Debug)]
pub struct CurrentFile {
    path: String,
    state: CurrentState,
}

impl CurrentFile {
    /// The file at `path` holding `state`.
    pub fn new(path: String, state: CurrentState) -> (f: Self)
        ensures
            f.state_view() == state,
            f.path_view() == path@,
    {
        CurrentFile { path, state }
    }

    /// The `CURRENT` file of `data_dir`, holding the state its text
    /// `contents` decodes to, or the fresh state when the file does not
    /// exist.
    pub fn open(data_dir: &str, contents: Option<&[u8]>) -> (r: Result<Self>)
        ensures
            match contents {
                Some(c) => match parse_current(c@) {
                    Ok(st) => r matches Ok(f) && f.state_view() == st && f.path_view() == data_dir@ + "/CURRENT"@,
                    Err(e) => r == Err::<Self, EngineError>(e),
                },
                None => r matches Ok(f) && f.state_view() == default_state() && f.path_view() == data_dir@
                    + "/CURRENT"@,
            },
    {
        let state = match contents {
            Some(c) => CurrentState::decode(c)?,
            None => CurrentState::default(),
        };
        Ok(CurrentFile { path: current_path(data_dir), state })
    }

    pub closed spec fn state_view(&self) -> CurrentState {
        self.state
    }

    pub closed spec fn path_view(&self) -> Seq<char> {
        self.path@
    }

    /// Where the file lives.
    pub fn path(&self) -> (r: &str)
        ensures
            r@ == self.path_view(),
    {
        self.path.as_str()
    }

    /// The state.
    pub fn state(&self) -> (r: &CurrentState)
        ensures
            *r == self.state_view(),
    {
        &self.state
    }

    /// The file change that stores the state: the file rewritten whole
    /// with the text of the state.
    pub fn persist(&self) -> (r: FileOp)
        ensures
            r@ == (FileOpView::Write { path: self.path_view(), bytes: current_bytes(self.state_view()) }),
    {
        FileOp::Write { path: self.path.clone(), bytes: self.state.encode() }
    }

    /// The state, for updating.
    pub fn state_mut(&mut self) -> (r: &mut CurrentState)
        ensures
            *r == old(self).state_view(),
            final(self).state_view() == *final(r),
            final(self).path_view() == old(self).path_view(),
    {
        &mut self.state
    }
}

/// Where the `CURRENT` file of a data directory lives.
pub fn current_path(data_dir: &str) -> (r: String)
    ensures
        r@ == data_dir@ + "/CURRENT"@,
{
    let s = String::from_str(data_dir);
    s.concat("/CURRENT")
}

} // verus!
