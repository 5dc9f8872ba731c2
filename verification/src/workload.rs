//! The workloads that drive the engine in the harness programs: their
//! command-line options, the keys and values they write, and which
//! operation each step performs.
use vstd::prelude::*;
use vstd::string::*;

use crate::current::{first_index, text_lines};
use crate::format::push_bytes;
use crate::index::{compare_bytes, ByteOrder};
use crate::text::{decimal_padded, parse_decimal, parse_u64, u64_to_decimal_padded};

verus! {

/// The key of the `index`-th entry: `key-` and the index in twenty digits.
pub open spec fn key_bytes(index: u64) -> Seq<u8> {
    "key-".spec_bytes() + decimal_padded(index as nat, 20)
}

/// The text that opens the `index`-th value: `value-`, the index in
/// twenty digits, and a colon.
pub open spec fn value_prefix(index: u64) -> Seq<u8> {
    "value-".spec_bytes() + decimal_padded(index as nat, 20) + seq![58u8]
}

/// The `index`-th value of `len` bytes: as much of its prefix as fits,
/// then bytes that cycle through the residues modulo 251.
pub open spec fn value_bytes(index: u64, len: nat) -> Seq<u8> {
    let p = value_prefix(index);
    Seq::new(
        len,
        |i: int|
            if i < p.len() {
                p[i]
            } else {
                ((index + i) % 251) as u8
            },
    )
}

/// The value the crash harness writes with the `index`-th key: `value-`
/// and the index in twenty digits.
pub open spec fn crash_value_bytes(index: u64) -> Seq<u8> {
    "value-".spec_bytes() + decimal_padded(index as nat, 20)
}

/// The key index that step `op` reads among `key_count` keys: a linear
/// congruential step taken modulo 2^64, reduced modulo the key count; 0
/// when there are no keys.
pub open spec fn pseudo_random_index_spec(op: u64, key_count: u64) -> u64 {
    if key_count == 0 {
        0
    } else {
        let m = 0x1_0000_0000_0000_0000nat;
        let x = ((op as nat * 6364136223846793005nat) % m + 1442695040888963407nat) % m;
        (x % key_count as nat) as u64
    }
}

/// The key of the `index`-th entry.
pub fn make_key(index: u64) -> (r: Vec<u8>)
    ensures
        r@ == key_bytes(index),
{
    let mut out: Vec<u8> = Vec::new();
    push_bytes(&mut out, "key-".as_bytes());
    push_bytes(&mut out, u64_to_decimal_padded(index, 20).as_slice());
    proof {
        assert(out@ =~= key_bytes(index));
    }
    out
}

/// The `index`-th value, `len` bytes long.
pub fn make_value(index: u64, len: usize) -> (r: Vec<u8>)
    requires
        index + len <= usize::MAX,
    ensures
        r@ == value_bytes(index, len as nat),
{
    let mut prefix: Vec<u8> = Vec::new();
    push_bytes(&mut prefix, "value-".as_bytes());
    push_bytes(&mut prefix, u64_to_decimal_padded(index, 20).as_slice());
    prefix.push(58u8);
    assert(prefix@ =~= value_prefix(index));
    let base = index as usize;
    let mut out: Vec<u8> = Vec::new();
    let mut i: usize = 0;
    while i < len
        invariant
            i <= len,
            base == index,
            index + len <= usize::MAX,
            prefix@ == value_prefix(index),
            out@ =~= value_bytes(index, len as nat).take(i as int),
        decreases len - i,
    {
        let b = if i < prefix.len() {
            prefix[i]
        } else {
            ((base + i) % 251) as u8
        };
        out.push(b);
        i = i + 1;
    }
    proof {
        assert(value_bytes(index, len as nat).take(len as int) =~= value_bytes(index, len as nat));
    }
    out
}

/// The value the crash harness writes with the `index`-th key.
pub fn make_crash_value(index: u64) -> (r: Vec<u8>)
    ensures
        r@ == crash_value_bytes(index),
{
    let mut out: Vec<u8> = Vec::new();
    push_bytes(&mut out, "value-".as_bytes());
    push_bytes(&mut out, u64_to_decimal_padded(index, 20).as_slice());
    proof {
        assert(out@ =~= crash_value_bytes(index));
    }
    out
}

/// The key index that step `op` reads among `key_count` keys.
pub fn pseudo_random_index(op: u64, key_count: u64) -> (r: u64)
    ensures
        r == pseudo_random_index_spec(op, key_count),
        key_count > 0 ==> r < key_count,
{
    if key_count == 0 {
        return 0;
    }
    let x = op.wrapping_mul(6364136223846793005u64).wrapping_add(1442695040888963407u64);
    proof {
        let m = 0x1_0000_0000_0000_0000nat;
        let p = (op as nat * 6364136223846793005nat) % m;
        assert(p < m) by (nonlinear_arith)
            requires
                p == (op as nat * 6364136223846793005nat) % m,
                m > 0,
        ;
        assert((p + 1442695040888963407nat) % m == if p + 1442695040888963407nat >= m {
            p + 1442695040888963407int - m
        } else {
            p + 1442695040888963407int
        }) by (nonlinear_arith)
            requires
                p < m,
                m == 0x1_0000_0000_0000_0000nat,
        ;
    }
    x % key_count
}

/// The workloads of the performance harness.
#[derive(Debug, Clone, Copy, PartialEq, Eq, Structural)]
pub enum Workload {
    Write,
    Populate,
    Read,
    Mixed,
}

/// The workload a name on the command line selects.
pub open spec fn workload_named(name: Seq<u8>) -> Option<Workload> {
    if name == "write".spec_bytes() {
        Some(Workload::Write)
    } else if name == "populate".spec_bytes() {
        Some(Workload::Populate)
    } else if name == "read".spec_bytes() {
        Some(Workload::Read)
    } else if name == "mixed".spec_bytes() {
        Some(Workload::Mixed)
    } else {
        None
    }
}

impl Workload {
    /// The name of the workload on the command line and in reports.
    pub open spec fn name(self) -> Seq<u8> {
        match self {
            Workload::Write => "write".spec_bytes(),
            Workload::Populate => "populate".spec_bytes(),
            Workload::Read => "read".spec_bytes(),
            Workload::Mixed => "mixed".spec_bytes(),
        }
    }

    /// The workload that `value` names, if any.
    pub fn parse(value: &[u8]) -> (r: Option<Workload>)
        ensures
            r == workload_named(value@),
    {
        if compare_bytes(value, "write".as_bytes()) == ByteOrder::Equal {
            Some(Workload::Write)
        } else if compare_bytes(value, "populate".as_bytes()) == ByteOrder::Equal {
            Some(Workload::Populate)
        } else if compare_bytes(value, "read".as_bytes()) == ByteOrder::Equal {
            Some(Workload::Read)
        } else if compare_bytes(value, "mixed".as_bytes()) == ByteOrder::Equal {
            Some(Workload::Mixed)
        } else {
            None
        }
    }

    /// The name of the workload.
    pub fn as_str(self) -> (r: &'static str)
        ensures
            r.spec_bytes() == self.name(),
    {
        match self {
            Workload::Write => "write",
            Workload::Populate => "populate",
            Workload::Read => "read",
            Workload::Mixed => "mixed",
        }
    }
}

/// The command-line arguments of the performance harness.
#[derive(Debug, Clone, Copy, PartialEq, Eq, Structural)]
pub enum Flag {
    Workload,
    DataDir,
    Keys,
    Ops,
    ValueBytes,
    MemtableThreshold,
    MaximumMemtables,
    ReadPercent,
    Help,
    Unknown,
}

/// The flag that an argument is.
pub open spec fn flag_of(a: Seq<u8>) -> Flag {
    if a == "--workload".spec_bytes() {
        Flag::Workload
    } else if a == "--data-dir".spec_bytes() {
        Flag::DataDir
    } else if a == "--keys".spec_bytes() {
        Flag::Keys
    } else if a == "--ops".spec_bytes() {
        Flag::Ops
    } else if a == "--value-bytes".spec_bytes() {
        Flag::ValueBytes
    } else if a == "--memtable-threshold".spec_bytes() {
        Flag::MemtableThreshold
    } else if a == "--maximum-memtables".spec_bytes() {
        Flag::MaximumMemtables
    } else if a == "--read-percent".spec_bytes() {
        Flag::ReadPercent
    } else if a == "--help".spec_bytes() || a == "-h".spec_bytes() {
        Flag::Help
    } else {
        Flag::Unknown
    }
}

/// The flag that an argument is.
pub fn flag(a: &[u8]) -> (r: Flag)
    ensures
        r == flag_of(a@),
{
    if compare_bytes(a, "--workload".as_bytes()) == ByteOrder::Equal {
        Flag::Workload
    } else if compare_bytes(a, "--data-dir".as_bytes()) == ByteOrder::Equal {
        Flag::DataDir
    } else if compare_bytes(a, "--keys".as_bytes()) == ByteOrder::Equal {
        Flag::Keys
    } else if compare_bytes(a, "--ops".as_bytes()) == ByteOrder::Equal {
        Flag::Ops
    } else if compare_bytes(a, "--value-bytes".as_bytes()) == ByteOrder::Equal {
        Flag::ValueBytes
    } else if compare_bytes(a, "--memtable-threshold".as_bytes()) == ByteOrder::Equal {
        Flag::MemtableThreshold
    } else if compare_bytes(a, "--maximum-memtables".as_bytes()) == ByteOrder::Equal {
        Flag::MaximumMemtables
    } else if compare_bytes(a, "--read-percent".as_bytes()) == ByteOrder::Equal {
        Flag::ReadPercent
    } else if compare_bytes(a, "--help".as_bytes()) == ByteOrder::Equal || compare_bytes(a, "-h".as_bytes())
        == ByteOrder::Equal {
        Flag::Help
    } else {
        Flag::Unknown
    }
}

/// The settings of a run of the performance harness.
#[derive(Debug, Clone, PartialEq, Eq)]
pub struct Options {
    pub workload: Workload,
    pub data_dir: Vec<u8>,
    pub keys: u64,
    pub ops: u64,
    pub value_bytes: usize,
    pub memtable_threshold: usize,
    pub maximum_memtables: usize,
    pub read_percent: u8,
}

/// The contents of `Options`.
pub struct OptionsView {
    pub workload: Workload,
    pub data_dir: Seq<u8>,
    pub keys: u64,
    pub ops: u64,
    pub value_bytes: usize,
    pub memtable_threshold: usize,
    pub maximum_memtables: usize,
    pub read_percent: u8,
}

impl View for Options {
    type V = OptionsView;

    open spec fn view(&self) -> OptionsView {
        OptionsView {
            workload: self.workload,
            data_dir: self.data_dir@,
            keys: self.keys,
            ops: self.ops,
            value_bytes: self.value_bytes,
            memtable_threshold: self.memtable_threshold,
            maximum_memtables: self.maximum_memtables,
            read_percent: self.read_percent,
        }
    }
}

/// Why the arguments give no run: help was asked for, or an argument is
/// unknown, lacks its value or has a value that does not parse.
#[derive(Debug, Clone, PartialEq, Eq)]
pub enum OptionsError {
    Help,
    UnknownArgument(Vec<u8>),
    MissingValue(Vec<u8>),
    UnknownWorkload(Vec<u8>),
    InvalidValue(Vec<u8>, Vec<u8>),
    ReadPercentTooLarge,
}

/// The contents of an `OptionsError`.
pub enum OptionsErrorView {
    Help,
    UnknownArgument(Seq<u8>),
    MissingValue(Seq<u8>),
    UnknownWorkload(Seq<u8>),
    InvalidValue(Seq<u8>, Seq<u8>),
    ReadPercentTooLarge,
}

impl View for OptionsError {
    type V = OptionsErrorView;

    open spec fn view(&self) -> OptionsErrorView {
        match self {
            OptionsError::Help => OptionsErrorView::Help,
            OptionsError::UnknownArgument(a) => OptionsErrorView::UnknownArgument(a@),
            OptionsError::MissingValue(a) => OptionsErrorView::MissingValue(a@),
            OptionsError::UnknownWorkload(v) => OptionsErrorView::UnknownWorkload(v@),
            OptionsError::InvalidValue(f, v) => OptionsErrorView::InvalidValue(f@, v@),
            OptionsError::ReadPercentTooLarge => OptionsErrorView::ReadPercentTooLarge,
        }
    }
}

/// The settings before any argument: the write workload on 200,000 keys
/// and operations, 256-byte values, a 1 MiB memtable threshold, up to 4
/// immutable memtables, half of mixed operations reads.
pub open spec fn default_options(data_dir: Seq<u8>) -> OptionsView {
    OptionsView {
        workload: Workload::Write,
        data_dir,
        keys: 200000,
        ops: 200000,
        value_bytes: 256,
        memtable_threshold: 1048576,
        maximum_memtables: 4,
        read_percent: 50,
    }
}

/// The number `s` denotes, when it parses and is at most `max`.
pub open spec fn number_at_most(s: Seq<u8>, max: u64) -> Option<u64> {
    match parse_decimal(s) {
        Some(v) => if v <= max {
            Some(v)
        } else {
            None
        },
        None => None,
    }
}

/// The settings after the flag `f`, written `arg`, is given the value `v`.
pub open spec fn set_option(o: OptionsView, f: Flag, arg: Seq<u8>, v: Seq<u8>) -> Result<
    OptionsView,
    OptionsErrorView,
> {
    let bad = Err(OptionsErrorView::InvalidValue(arg, v));
    match f {
        Flag::Workload => match workload_named(v) {
            Some(w) => Ok(OptionsView { workload: w, ..o }),
            None => Err(OptionsErrorView::UnknownWorkload(v)),
        },
        Flag::DataDir => Ok(OptionsView { data_dir: v, ..o }),
        Flag::Keys => match number_at_most(v, u64::MAX) {
            Some(n) => Ok(OptionsView { keys: n, ..o }),
            None => bad,
        },
        Flag::Ops => match number_at_most(v, u64::MAX) {
            Some(n) => Ok(OptionsView { ops: n, ..o }),
            None => bad,
        },
        Flag::ValueBytes => match number_at_most(v, usize::MAX as u64) {
            Some(n) => Ok(OptionsView { value_bytes: n as usize, ..o }),
            None => bad,
        },
        Flag::MemtableThreshold => match number_at_most(v, usize::MAX as u64) {
            Some(n) => Ok(OptionsView { memtable_threshold: n as usize, ..o }),
            None => bad,
        },
        Flag::MaximumMemtables => match number_at_most(v, usize::MAX as u64) {
            Some(n) => Ok(OptionsView { maximum_memtables: n as usize, ..o }),
            None => bad,
        },
        Flag::ReadPercent => match number_at_most(v, 255) {
            Some(n) => Ok(OptionsView { read_percent: n as u8, ..o }),
            None => bad,
        },
        _ => Ok(o),
    }
}

/// The settings after the arguments from position `i` on, read in order:
/// help and an unknown argument stop at once; every other flag takes the
/// argument after it as its value.
pub open spec fn parse_args_from(args: Seq<Seq<u8>>, i: nat, o: OptionsView) -> Result<
    OptionsView,
    OptionsErrorView,
>
    decreases args.len() - i,
{
    if i >= args.len() {
        Ok(o)
    } else {
        let a = args[i as int];
        match flag_of(a) {
            Flag::Help => Err(OptionsErrorView::Help),
            Flag::Unknown => Err(OptionsErrorView::UnknownArgument(a)),
            f => if i + 1 >= args.len() {
                Err(OptionsErrorView::MissingValue(a))
            } else {
                match set_option(o, f, a, args[i + 1int]) {
                    Ok(o2) => parse_args_from(args, i + 2, o2),
                    Err(e) => Err(e),
                }
            },
        }
    }
}

/// The settings that the arguments give, starting from the defaults with
/// `data_dir`; a read percentage above 100 is refused.
pub open spec fn parse_options(args: Seq<Seq<u8>>, data_dir: Seq<u8>) -> Result<OptionsView, OptionsErrorView> {
    match parse_args_from(args, 0, default_options(data_dir)) {
        Ok(o) => if o.read_percent > 100 {
            Err(OptionsErrorView::ReadPercentTooLarge)
        } else {
            Ok(o)
        },
        Err(e) => Err(e),
    }
}

/// The byte views of arguments.
pub open spec fn args_view(args: Seq<Vec<u8>>) -> Seq<Seq<u8>> {
    Seq::new(args.len(), |i: int| args[i]@)
}

/// The number `s` denotes, when it parses and is at most `max`.
fn number(s: &[u8], max: u64) -> (r: Option<u64>)
    ensures
        r == number_at_most(s@, max),
{
    match parse_u64(s) {
        Some(v) => if v <= max {
            Some(v)
        } else {
            None
        },
        None => None,
    }
}

impl Options {
    /// Reads the arguments after the program name, starting from the
    /// defaults with `default_data_dir`.
    pub fn parse(args: &[Vec<u8>], default_data_dir: &[u8]) -> (r: Result<Options, OptionsError>)
        ensures
            match parse_options(args_view(args@), default_data_dir@) {
                Ok(o) => r matches Ok(x) && x@ == o,
                Err(e) => r matches Err(x) && x@ == e,
            },
    {
        let ghost av = args_view(args@);
        let mut o = Options {
            workload: Workload::Write,
            data_dir: crate::format::copy_bytes(default_data_dir),
            keys: 200000,
            ops: 200000,
            value_bytes: 256,
            memtable_threshold: 1048576,
            maximum_memtables: 4,
            read_percent: 50,
        };
        let mut i: usize = 0;
        while i < args.len()
            invariant
                i <= args@.len(),
                av == args_view(args@),
                parse_args_from(av, 0, default_options(default_data_dir@)) == parse_args_from(av, i as nat, o@),
            decreases args@.len() - i,
        {
            let a = args[i].as_slice();
            assert(av[i as int] == a@);
            let f = flag(a);
            match f {
                Flag::Help => {
                    return Err(OptionsError::Help);
                },
                Flag::Unknown => {
                    return Err(OptionsError::UnknownArgument(crate::format::copy_bytes(a)));
                },
                _ => {},
            }
            if i + 1 >= args.len() {
                return Err(OptionsError::MissingValue(crate::format::copy_bytes(a)));
            }
            let v = args[i + 1].as_slice();
            assert(av[i + 1] == v@);
            let bad = OptionsError::InvalidValue(crate::format::copy_bytes(a), crate::format::copy_bytes(v));
            match f {
                Flag::Workload => match Workload::parse(v) {
                    Some(w) => {
                        o.workload = w;
                    },
                    None => {
                        return Err(OptionsError::UnknownWorkload(crate::format::copy_bytes(v)));
                    },
                },
                Flag::DataDir => {
                    o.data_dir = crate::format::copy_bytes(v);
                },
                Flag::Keys => match number(v, u64::MAX) {
                    Some(n) => {
                        o.keys = n;
                    },
                    None => {
                        return Err(bad);
                    },
                },
                Flag::Ops => match number(v, u64::MAX) {
                    Some(n) => {
                        o.ops = n;
                    },
                    None => {
                        return Err(bad);
                    },
                },
                Flag::ValueBytes => match number(v, usize::MAX as u64) {
                    Some(n) => {
                        o.value_bytes = n as usize;
                    },
                    None => {
                        return Err(bad);
                    },
                },
                Flag::MemtableThreshold => match number(v, usize::MAX as u64) {
                    Some(n) => {
                        o.memtable_threshold = n as usize;
                    },
                    None => {
                        return Err(bad);
                    },
                },
                Flag::MaximumMemtables => match number(v, usize::MAX as u64) {
                    Some(n) => {
                        o.maximum_memtables = n as usize;
                    },
                    None => {
                        return Err(bad);
                    },
                },
                Flag::ReadPercent => match number(v, 255) {
                    Some(n) => {
                        o.read_percent = n as u8;
                    },
                    None => {
                        return Err(bad);
                    },
                },
                _ => {},
            }
            i = i + 2;
        }
        if o.read_percent > 100 {
            return Err(OptionsError::ReadPercentTooLarge);
        }
        Ok(o)
    }
}

/// One step of a workload: write a key, or read one; a read of a key the
/// workload wrote before is `required` to find a value.
#[derive(Debug, Clone, PartialEq, Eq)]
pub enum WorkloadAction {
    Put { key: Vec<u8>, value: Vec<u8> },
    Get { key: Vec<u8>, required: bool },
}

/// The contents of a `WorkloadAction`.
pub enum WorkloadActionView {
    Put { key: Seq<u8>, value: Seq<u8> },
    Get { key: Seq<u8>, required: bool },
}

impl View for WorkloadAction {
    type V = WorkloadActionView;

    open spec fn view(&self) -> WorkloadActionView {
        match self {
            WorkloadAction::Put { key, value } => WorkloadActionView::Put { key: key@, value: value@ },
            WorkloadAction::Get { key, required } => WorkloadActionView::Get { key: key@, required: *required },
        }
    }
}

/// Whether step `op` of a mixed workload reads: when keys were loaded
/// and `op` falls, modulo 100, below the read percentage.
pub open spec fn mixed_reads(o: OptionsView, op: u64) -> bool {
    op % 100 < o.read_percent && o.keys > 0
}

/// The number of steps a workload takes: one write per key; for reads,
/// the number of operations but at least one per key; for a mixed
/// workload, the number of operations.
pub open spec fn step_count(o: OptionsView) -> u64 {
    match o.workload {
        Workload::Write | Workload::Populate => o.keys,
        Workload::Read => if o.ops >= o.keys {
            o.ops
        } else {
            o.keys
        },
        Workload::Mixed => o.ops,
    }
}

/// How many steps each workload takes. A writing workload writes each of
/// its keys once: as many steps as keys. A read workload takes the larger
/// of the operation count and the key count: at least one step per loaded
/// key and at least one per requested operation, and no more than the
/// larger of the two. A mixed workload takes one step per operation.
pub proof fn lemma_step_count(o: OptionsView)
    ensures
        (o.workload == Workload::Write || o.workload == Workload::Populate) ==> step_count(o) == o.keys,
        o.workload == Workload::Read ==> {
            &&& step_count(o) >= o.keys
            &&& step_count(o) >= o.ops
            &&& (step_count(o) == o.keys || step_count(o) == o.ops)
        },
        o.workload == Workload::Mixed ==> step_count(o) == o.ops,
{
}

/// Step `op` of the workload. Writing workloads write key `op`; reads
/// read a pseudo-random loaded key, which must be there; a mixed workload
/// reads a loaded key or writes key `keys + op`.
pub open spec fn step_action(o: OptionsView, op: u64) -> WorkloadActionView {
    match o.workload {
        Workload::Write | Workload::Populate => WorkloadActionView::Put {
            key: key_bytes(op),
            value: value_bytes(op, o.value_bytes as nat),
        },
        Workload::Read => WorkloadActionView::Get {
            key: key_bytes(pseudo_random_index_spec(op, o.keys)),
            required: true,
        },
        Workload::Mixed => if mixed_reads(o, op) {
            WorkloadActionView::Get { key: key_bytes(pseudo_random_index_spec(op, o.keys)), required: false }
        } else {
            WorkloadActionView::Put {
                key: key_bytes((o.keys + op) as u64),
                value: value_bytes((o.keys + op) as u64, o.value_bytes as nat),
            }
        },
    }
}

/// The index step `op` writes, for a writing step.
pub open spec fn written_index(o: OptionsView, op: u64) -> int {
    match o.workload {
        Workload::Mixed => o.keys + op,
        _ => op as int,
    }
}

/// Step `op` can be computed: a written index fits in 64 bits, and the
/// index plus the value length fits in `usize`.
pub open spec fn step_fits(o: OptionsView, op: u64) -> bool {
    match o.workload {
        Workload::Read => true,
        Workload::Mixed => mixed_reads(o, op) || written_index(o, op) + o.value_bytes <= usize::MAX,
        _ => written_index(o, op) + o.value_bytes <= usize::MAX,
    }
}

impl Options {
    /// The number of steps the workload takes.
    pub fn step_count(&self) -> (r: u64)
        ensures
            r == step_count(self@),
            self@.workload == Workload::Read ==> r >= self@.keys && r >= self@.ops && (r == self@.keys || r
                == self@.ops),
            (self@.workload == Workload::Write || self@.workload == Workload::Populate) ==> r == self@.keys,
            self@.workload == Workload::Mixed ==> r == self@.ops,
    {
        match self.workload {
            Workload::Write | Workload::Populate => self.keys,
            Workload::Read => if self.ops >= self.keys {
                self.ops
            } else {
                self.keys
            },
            Workload::Mixed => self.ops,
        }
    }

    /// Whether step `op` can be computed.
    pub fn step_fits(&self, op: u64) -> (r: bool)
        ensures
            r == step_fits(self@, op),
    {
        let reads = op % 100 < self.read_percent as u64 && self.keys > 0;
        match self.workload {
            Workload::Read => true,
            Workload::Mixed => reads || (self.keys <= u64::MAX - op && (self.keys + op) as u128 + self.value_bytes as u128
                <= usize::MAX as u128),
            _ => op as u128 + self.value_bytes as u128 <= usize::MAX as u128,
        }
    }

    /// Step `op` of the workload.
    pub fn step(&self, op: u64) -> (r: WorkloadAction)
        requires
            step_fits(self@, op),
        ensures
            r@ == step_action(self@, op),
    {
        match self.workload {
            Workload::Write | Workload::Populate => WorkloadAction::Put {
                key: make_key(op),
                value: make_value(op, self.value_bytes),
            },
            Workload::Read => WorkloadAction::Get { key: make_key(pseudo_random_index(op, self.keys)), required: true },
            Workload::Mixed => {
                if op % 100 < self.read_percent as u64 && self.keys > 0 {
                    WorkloadAction::Get { key: make_key(pseudo_random_index(op, self.keys)), required: false }
                } else {
                    let index = self.keys + op;
                    WorkloadAction::Put { key: make_key(index), value: make_value(index, self.value_bytes) }
                }
            },
        }
    }
}

/// What a line of the crash harness's expected file holds: the text up to
/// the first tab is the key, the text after it up to the next tab the
/// value; a line without a tab has no value.
pub open spec fn expected_entry_spec(line: Seq<u8>) -> Option<(Seq<u8>, Seq<u8>)> {
    let i = first_index(line, 9u8) as int;
    if i >= line.len() {
        None
    } else {
        let rest = line.skip(i + 1);
        Some((line.take(i), rest.take(first_index(rest, 9u8) as int)))
    }
}

/// The key and value a line of the crash harness's expected file holds.
pub fn expected_entry(line: &[u8]) -> (r: Option<(Vec<u8>, Vec<u8>)>)
    ensures
        match expected_entry_spec(line@) {
            Some((k, v)) => r matches Some((a, b)) && a@ == k && b@ == v,
            None => r is None,
        },
{
    assert(line@.skip(0) =~= line@);
    let tab = crate::current::find_byte(line, 0, 9u8);
    if tab >= line.len() {
        return None;
    }
    let end = crate::current::find_byte(line, tab + 1, 9u8);
    let key = vstd::slice::slice_subrange(line, 0, tab);
    let value = vstd::slice::slice_subrange(line, tab + 1, end);
    proof {
        let rest = line@.skip(tab + 1);
        assert(key@ =~= line@.take(tab as int));
        assert(value@ =~= rest.take(first_index(rest, 9u8) as int));
    }
    Some((crate::format::copy_bytes(key), crate::format::copy_bytes(value)))
}

/// The lines of a text, as `str::lines` splits them.
pub fn lines(text: &[u8]) -> (r: Vec<Vec<u8>>)
    ensures
        r@.len() == text_lines(text@).len(),
        forall|i: int| 0 <= i < r@.len() ==> (#[trigger] r@[i])@ == text_lines(text@)[i],
{
    let mut out: Vec<Vec<u8>> = Vec::new();
    let mut pos: usize = 0;
    let ghost mut done: Seq<Seq<u8>> = Seq::empty();
    assert(text@.skip(0) =~= text@);
    while pos < text.len()
        invariant
            pos <= text@.len(),
            out@.len() == done.len(),
            forall|i: int| 0 <= i < out@.len() ==> (#[trigger] out@[i])@ == done[i],
            text_lines(text@) == done + text_lines(text@.skip(pos as int)),
        decreases text@.len() - pos,
    {
        let ghost rest = text@.skip(pos as int);
        let nl = crate::current::find_byte(text, pos, 10u8);
        let mut end = nl;
        if nl < text.len() && end > pos && text[end - 1] == 13u8 {
            end = end - 1;
        }
        let line = vstd::slice::slice_subrange(text, pos, end);
        let ghost ls = text_lines(rest);
        proof {
            let i = first_index(rest, 10u8) as int;
            assert(i == nl - pos);
            if nl < text.len() {
                let l0 = rest.take(i);
                if l0.len() > 0 && l0.last() == 13u8 {
                    assert(line@ =~= l0.drop_last());
                } else {
                    assert(line@ =~= l0);
                }
                assert(rest.skip(i + 1) =~= text@.skip(nl + 1));
            } else {
                assert(line@ =~= rest);
            }
        }
        out.push(crate::format::copy_bytes(line));
        pos = if nl < text.len() {
            nl + 1
        } else {
            text.len()
        };
        proof {
            assert(ls[0] == line@);
            if nl >= text.len() {
                assert(text@.skip(pos as int) =~= Seq::<u8>::empty());
            }
            assert(ls.drop_first() =~= text_lines(text@.skip(pos as int)));
            assert(ls =~= seq![ls[0]] + ls.drop_first());
            assert(done.push(line@) + text_lines(text@.skip(pos as int)) =~= done + ls);
            done = done.push(line@);
        }
    }
    assert(text@.skip(pos as int) =~= Seq::<u8>::empty());
    assert(text_lines(Seq::<u8>::empty()) =~= Seq::<Seq<u8>>::empty());
    assert(done + Seq::<Seq<u8>>::empty() =~= done);
    out
}

} // verus!
