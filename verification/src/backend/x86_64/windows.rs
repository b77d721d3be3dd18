//! Code generation for Windows: LIR to x86_64 assembly that calls
//! `kernel32.dll`, with the import table that a PE image needs.
//!
//! Registers are as on Linux; besides, `rsi` and `rdi` hold the standard
//! input and output handles.

use vstd::prelude::*;

use crate::backend::asm_ir::{AsmInst, AsmLabel, AsmProgram, Reg64};
use crate::backend::asm_ir::{lemma_raw, lemma_same_append, raw, same_inst, same_insts};
use crate::backend::codegen_common::{emit_lir_body, LabelAllocator, PlatformEmitter, Routines};
use crate::backend::codegen_common::{internal, lir_body, lir_ok};
use crate::ir::lir::LirProgram;
use crate::text::chars_of;

verus! {

/// Initial tape size in bytes.
pub const INITIAL_TAPE_SIZE: i64 = 4096;

/// Size of the output buffer in bytes, as on Linux.
pub const OUTPUT_BUFFER_SIZE: i64 = 4096;

pub const MEM_COMMIT_RESERVE: i64 = 0x3000;

pub const MEM_RELEASE: i64 = 0x8000;

pub const PAGE_READWRITE: i64 = 0x04;

pub const ERROR_HANDLE_EOF: i32 = 38;

pub const ERROR_BROKEN_PIPE: i32 = 109;

pub const STD_INPUT_HANDLE: i64 = -10;

pub const STD_OUTPUT_HANDLE: i64 = -11;

pub const CALLEE_STACK_FRAME_BYTES: i32 = 88;

pub const IO_COUNT_SLOT_DISP: i32 = 40;

pub const OVERLAPPED_SLOT_DISP: i32 = 32;

pub const STACK_SAVED_NEW_BASE: i32 = 40;

pub const STACK_SAVED_COPY_START: i32 = 48;

pub const STACK_SAVED_NEW_LEN: i32 = 56;

pub const STACK_SAVED_DESIRED_OFFSET: i32 = 64;

pub const STACK_SAVED_RDI: i32 = 72;

pub const STACK_SAVED_RSI: i32 = 80;

/// First internal label.
pub const LABEL_BASE: u32 = 0xFFFE_FFFF;

/// A kernel32.dll symbol that the Windows back end may import.
#[derive(Debug, Clone, Copy, PartialEq, Eq, Structural)]
pub enum Kernel32Import {
    /// `ExitProcess(UINT)` — terminate the current process.
    ExitProcess,
    /// `GetLastError()` — last thread-local Win32 error code.
    GetLastError,
    /// `GetStdHandle(DWORD)` — fetch the stdin / stdout handle.
    GetStdHandle,
    /// `ReadFile(...)` — synchronous byte read used by `,`.
    ReadFile,
    /// `WriteFile(...)` — synchronous byte write used by `.`.
    WriteFile,
    /// `VirtualAlloc(...)` — reserve / commit pages during tape growth.
    VirtualAlloc,
    /// `VirtualFree(...)` — release pages from the previous tape after growth.
    VirtualFree,
}

impl Kernel32Import {
    /// The symbol's name.
    pub open spec fn spec_name(self) -> Seq<char> {
        match self {
            Kernel32Import::ExitProcess => "ExitProcess"@,
            Kernel32Import::GetLastError => "GetLastError"@,
            Kernel32Import::GetStdHandle => "GetStdHandle"@,
            Kernel32Import::ReadFile => "ReadFile"@,
            Kernel32Import::WriteFile => "WriteFile"@,
            Kernel32Import::VirtualAlloc => "VirtualAlloc"@,
            Kernel32Import::VirtualFree => "VirtualFree"@,
        }
    }

    /// The symbol's name.
    pub fn name(self) -> (s: &'static str)
        ensures
            s@ == self.spec_name(),
    {
        match self {
            Kernel32Import::ExitProcess => "ExitProcess",
            Kernel32Import::GetLastError => "GetLastError",
            Kernel32Import::GetStdHandle => "GetStdHandle",
            Kernel32Import::ReadFile => "ReadFile",
            Kernel32Import::WriteFile => "WriteFile",
            Kernel32Import::VirtualAlloc => "VirtualAlloc",
            Kernel32Import::VirtualFree => "VirtualFree",
        }
    }
}

/// A single import-table record referenced by the generated PE32+ image.
#[derive(Debug, Clone)]
pub struct WindowsImport {
    /// Human-readable import name (used when writing the hint/name entry).
    pub name: &'static str,
    /// Label of the IMAGE_IMPORT_BY_NAME hint/name entry in the import table.
    pub hint_name_label: AsmLabel,
    /// Label of the corresponding ILT (Import Lookup Table) slot.
    pub ilt_entry_label: AsmLabel,
    /// Label of the corresponding IAT (Import Address Table) slot.
    pub iat_entry_label: AsmLabel,
}

/// Complete back-end artifact for the Windows target: assembly plus the labels
/// the PE32+ writer needs to patch into the headers.
#[derive(Debug, Clone)]
pub struct WindowsProgram {
    /// Generated x86_64 assembly (code and data).
    pub code: AsmProgram,
    /// Label of the entry point.
    pub entry_label: AsmLabel,
    /// Label of the first IMAGE_IMPORT_DESCRIPTOR entry.
    pub import_desc_label: AsmLabel,
    /// Byte size of the import directory placed at `import_desc_label`.
    pub import_dir_size: u32,
    /// Label of the IAT block emitted alongside the import descriptor.
    pub iat_label: AsmLabel,
    /// Byte size of the IAT block at `iat_label`.
    pub iat_size: u32,
    /// Label of the imported DLL name string (`"kernel32.dll\0"`).
    pub dll_name_label: AsmLabel,
    /// One `WindowsImport` record per referenced kernel32 symbol.
    pub imports: Vec<WindowsImport>,
}

/// `n` zero bytes.
pub open spec fn zeros(n: nat) -> Seq<u8> {
    Seq::new(n, |i: int| 0u8)
}

/// The block of raw code that stands for `n` zero bytes holds them.
pub open spec fn is_block(n: nat) -> bool {
    match raw(zeros(n)) {
        AsmInst::RawBytes(v) => v@ == zeros(n),
        _ => false,
    }
}

/// One byte per character, for ASCII text.
pub open spec fn ascii(s: Seq<char>) -> Seq<u8> {
    Seq::new(s.len(), |i: int| s[i] as u8)
}

/// The hint/name record of an import: hint 0, the name, a zero byte.
pub open spec fn hint_name_bytes(kind: Kernel32Import) -> Seq<u8> {
    seq![0u8, 0u8] + ascii(kind.spec_name()) + seq![0u8]
}

/// The name of the imported library with a zero byte behind it.
pub open spec fn dll_name_bytes() -> Seq<u8> {
    ascii("kernel32.dll"@) + seq![0u8]
}

/// Label of the hint/name record of import `i`, for a table whose labels start
/// at `next`.
pub open spec fn hint_label(next: int, i: int) -> AsmLabel {
    internal(next, 4 + 3 * i)
}

/// Label of the lookup-table slot of import `i`.
pub open spec fn ilt_label_of(next: int, i: int) -> AsmLabel {
    internal(next, 5 + 3 * i)
}

/// Label of the address-table slot of import `i`.
pub open spec fn iat_label_of(next: int, i: int) -> AsmLabel {
    internal(next, 6 + 3 * i)
}

/// Labels taken by a table of `n` imports.
pub open spec fn table_labels(n: int) -> int {
    4 + 3 * n
}

/// The first `k` lookup-table slots.
pub open spec fn ilt_insts(next: int, k: int) -> Seq<AsmInst>
    decreases k,
{
    if k <= 0 {
        Seq::empty()
    } else {
        ilt_insts(next, k - 1) + seq![AsmInst::Label(ilt_label_of(next, k - 1)), raw(zeros(8))]
    }
}

/// The first `k` address-table slots.
pub open spec fn iat_insts(next: int, k: int) -> Seq<AsmInst>
    decreases k,
{
    if k <= 0 {
        Seq::empty()
    } else {
        iat_insts(next, k - 1) + seq![AsmInst::Label(iat_label_of(next, k - 1)), raw(zeros(8))]
    }
}

/// The first `k` hint/name records.
pub open spec fn hint_insts(next: int, kinds: Seq<Kernel32Import>, k: int) -> Seq<AsmInst>
    decreases k,
{
    if k <= 0 {
        Seq::empty()
    } else {
        hint_insts(next, kinds, k - 1) + seq![
            AsmInst::Label(hint_label(next, k - 1)),
            raw(hint_name_bytes(kinds[k - 1])),
        ]
    }
}

/// The import table: the directory (one descriptor and a zero one), lookup
/// table, address table, hint/name records and the library's name.
pub open spec fn import_table_insts(next: int, kinds: Seq<Kernel32Import>) -> Seq<AsmInst> {
    let n = kinds.len() as int;
    seq![
        AsmInst::Label(internal(next, 0)),
        raw(zeros(40)),
        AsmInst::Label(internal(next, 1)),
    ] + ilt_insts(next, n) + seq![raw(zeros(8)), AsmInst::Label(internal(next, 2))] + iat_insts(
        next,
        n,
    ) + seq![raw(zeros(8))] + hint_insts(next, kinds, n) + seq![
        AsmInst::Label(internal(next, 3)),
        raw(dll_name_bytes()),
    ]
}

/// The fields of a program that describe its import table, and its zero blocks.
pub open spec fn describes_table(
    r: WindowsProgram,
    next: int,
    kinds: Seq<Kernel32Import>,
) -> bool {
    &&& r.import_desc_label == internal(next, 0)
    &&& r.import_dir_size == 40
    &&& r.iat_label == internal(next, 2)
    &&& r.iat_size == 8 * (kinds.len() + 1)
    &&& r.dll_name_label == internal(next, 3)
    &&& is_block(8)
    &&& is_block(40)
    &&& r.imports@.len() == kinds.len()
    &&& forall|i: int|
        0 <= i < kinds.len() ==> {
            let import = #[trigger] r.imports@[i];
            &&& import.name@ == kinds[i].spec_name()
            &&& import.hint_name_label == hint_label(next, i)
            &&& import.ilt_entry_label == ilt_label_of(next, i)
            &&& import.iat_entry_label == iat_label_of(next, i)
        }
}

/// Two programs with the same tables.
pub open spec fn same_tables(a: WindowsProgram, b: WindowsProgram) -> bool {
    &&& a.entry_label == b.entry_label
    &&& a.import_desc_label == b.import_desc_label
    &&& a.import_dir_size == b.import_dir_size
    &&& a.iat_label == b.iat_label
    &&& a.iat_size == b.iat_size
    &&& a.dll_name_label == b.dll_name_label
    &&& a.imports == b.imports
}

/// One import with its three labels.
struct ImportEntry {
    kind: Kernel32Import,
    hint_name_label: AsmLabel,
    ilt_entry_label: AsmLabel,
    iat_entry_label: AsmLabel,
}

/// The import table under construction.
struct Kernel32Imports {
    desc_label: AsmLabel,
    ilt_label: AsmLabel,
    iat_label: AsmLabel,
    dll_name_label: AsmLabel,
    entries: Vec<ImportEntry>,
}

/// The table holds `kinds`, with labels from `next` on.
spec fn is_table(t: Kernel32Imports, next: int, kinds: Seq<Kernel32Import>) -> bool {
    &&& t.desc_label == internal(next, 0)
    &&& t.ilt_label == internal(next, 1)
    &&& t.iat_label == internal(next, 2)
    &&& t.dll_name_label == internal(next, 3)
    &&& t.entries@.len() == kinds.len()
    &&& forall|i: int|
        0 <= i < kinds.len() ==> {
            let entry = #[trigger] t.entries@[i];
            &&& entry.kind == kinds[i]
            &&& entry.hint_name_label == hint_label(next, i)
            &&& entry.ilt_entry_label == ilt_label_of(next, i)
            &&& entry.iat_entry_label == iat_label_of(next, i)
        }
}

/// `n` zero bytes as a block of raw code.
fn zero_block(n: usize) -> (inst: AsmInst)
    ensures
        same_inst(inst, raw(zeros(n as nat))),
        is_block(n as nat),
{
    let mut v: Vec<u8> = Vec::new();
    crate::bytes::push_zeros(&mut v, n);
    assert(v@ =~= zeros(n as nat));
    proof {
        lemma_raw(v, zeros(n as nat));
    }
    AsmInst::RawBytes(v)
}

/// Append one byte per character.
fn push_ascii(out: &mut Vec<u8>, s: &str)
    ensures
        final(out)@ == old(out)@ + ascii(s@),
{
    let chars = chars_of(s);
    let mut i: usize = 0;
    assert(out@ =~= old(out)@ + ascii(s@).take(0));
    while i < chars.len()
        invariant
            i <= chars.len(),
            chars@ == s@,
            out@ == old(out)@ + ascii(s@).take(i as int),
        decreases chars.len() - i,
    {
        out.push(chars[i] as u8);
        i += 1;
        assert(out@ =~= old(out)@ + ascii(s@).take(i as int));
    }
    assert(ascii(s@).take(s@.len() as int) =~= ascii(s@));
}

/// Push one instruction, the same as `want`.
fn push_same(
    out: &mut Vec<AsmInst>,
    inst: AsmInst,
    Ghost(before): Ghost<Seq<AsmInst>>,
    Ghost(want): Ghost<AsmInst>,
)
    requires
        same_insts(old(out)@, before),
        same_inst(inst, want),
    ensures
        same_insts(final(out)@, before + seq![want]),
{
    out.push(inst);
    proof {
        assert(same_insts(seq![inst], seq![want]));
        lemma_same_append(old(out)@, before, seq![inst], seq![want]);
        assert(out@ =~= old(out)@ + seq![inst]);
    }
}

impl Kernel32Imports {
    /// A table of `imports`, with fresh labels.
    fn new(labels: &mut LabelAllocator, imports: &Vec<Kernel32Import>) -> (t: Self)
        requires
            old(labels).next() - table_labels(imports@.len() as int) >= old(labels).floor(),
        ensures
            is_table(t, old(labels).next(), imports@),
            final(labels).next() == old(labels).next() - table_labels(imports@.len() as int),
            final(labels).floor() == old(labels).floor(),
    {
        let ghost start = old(labels).next();
        let desc_label = labels.fresh();
        let ilt_label = labels.fresh();
        let iat_label = labels.fresh();
        let dll_name_label = labels.fresh();
        let mut entries: Vec<ImportEntry> = Vec::new();
        let mut i: usize = 0;
        while i < imports.len()
            invariant
                i <= imports.len(),
                start == old(labels).next(),
                labels.next() == start - 4 - 3 * i,
                labels.floor() == old(labels).floor(),
                start - table_labels(imports@.len() as int) >= labels.floor(),
                entries@.len() == i,
                forall|k: int|
                    0 <= k < i ==> {
                        let entry = #[trigger] entries@[k];
                        &&& entry.kind == imports@[k]
                        &&& entry.hint_name_label == hint_label(start, k)
                        &&& entry.ilt_entry_label == ilt_label_of(start, k)
                        &&& entry.iat_entry_label == iat_label_of(start, k)
                    },
            decreases imports.len() - i,
        {
            let hint_name_label = labels.fresh();
            let ilt_entry_label = labels.fresh();
            let iat_entry_label = labels.fresh();
            entries.push(
                ImportEntry { kind: imports[i], hint_name_label, ilt_entry_label, iat_entry_label },
            );
            i += 1;
        }
        Kernel32Imports { desc_label, ilt_label, iat_label, dll_name_label, entries }
    }

    /// The address-table label of an import that the table holds, at `at`.
    fn iat_label(
        &self,
        kind: Kernel32Import,
        Ghost(next): Ghost<int>,
        Ghost(kinds): Ghost<Seq<Kernel32Import>>,
        Ghost(at): Ghost<int>,
    ) -> (label: AsmLabel)
        requires
            is_table(*self, next, kinds),
            0 <= at < kinds.len(),
            kinds[at] == kind,
            forall|i: int| 0 <= i < at ==> #[trigger] kinds[i] != kind,
        ensures
            label == iat_label_of(next, at),
    {
        let mut i: usize = 0;
        while i < self.entries.len()
            invariant
                i <= self.entries.len(),
                is_table(*self, next, kinds),
                0 <= at < kinds.len(),
                kinds[at] == kind,
                i <= at,
                forall|k: int| 0 <= k < at ==> #[trigger] kinds[k] != kind,
            decreases self.entries.len() - i,
        {
            assert(self.entries@[i as int].kind == kinds[i as int]);
            if self.entries[i].kind == kind {
                return self.entries[i].iat_entry_label;
            }
            i += 1;
        }
        self.desc_label
    }

    /// Size of the import directory: one descriptor and a zero one.
    fn import_dir_size(&self) -> (n: u32)
        ensures
            n == 40,
    {
        20 * 2
    }

    /// Size of the address table: a slot per import and a zero one.
    fn iat_size(&self) -> (n: u32)
        requires
            self.entries@.len() <= 7,
        ensures
            n == 8 * (self.entries@.len() + 1),
    {
        ((self.entries.len() + 1) * 8) as u32
    }

    /// Emit the table.
    fn emit(
        &self,
        out: &mut Vec<AsmInst>,
        Ghost(before): Ghost<Seq<AsmInst>>,
        Ghost(next): Ghost<int>,
        Ghost(kinds): Ghost<Seq<Kernel32Import>>,
    )
        requires
            is_table(*self, next, kinds),
            same_insts(old(out)@, before),
        ensures
            same_insts(final(out)@, before + import_table_insts(next, kinds)),
            is_block(8),
            is_block(40),
    {
        let ghost n = kinds.len() as int;
        let ghost mut done = before;
        push_same(out, AsmInst::Label(self.desc_label), Ghost(done), Ghost(AsmInst::Label(internal(next, 0))));
        proof { done = done + seq![AsmInst::Label(internal(next, 0))]; }
        push_same(out, zero_block(40), Ghost(done), Ghost(raw(zeros(40))));
        proof { done = done + seq![raw(zeros(40))]; }
        push_same(out, AsmInst::Label(self.ilt_label), Ghost(done), Ghost(AsmInst::Label(internal(next, 1))));
        proof { done = done + seq![AsmInst::Label(internal(next, 1))]; }
        let ghost head1 = done;
        let mut i: usize = 0;
        assert(done =~= head1 + ilt_insts(next, 0));
        while i < self.entries.len()
            invariant
                i <= self.entries.len(),
                is_table(*self, next, kinds),
                is_block(40),
                done == head1 + ilt_insts(next, i as int),
                same_insts(out@, done),
            decreases self.entries.len() - i,
        {
            let ghost label = AsmInst::Label(ilt_label_of(next, i as int));
            assert(self.entries@[i as int].ilt_entry_label == ilt_label_of(next, i as int));
            push_same(out, AsmInst::Label(self.entries[i].ilt_entry_label), Ghost(done), Ghost(label));
            push_same(out, zero_block(8), Ghost(done + seq![label]), Ghost(raw(zeros(8))));
            i += 1;
            proof {
                assert(done + seq![label] + seq![raw(zeros(8))] =~= head1 + ilt_insts(next, i as int));
                done = head1 + ilt_insts(next, i as int);
            }
        }
        push_same(out, zero_block(8), Ghost(done), Ghost(raw(zeros(8))));
        proof { done = done + seq![raw(zeros(8))]; }
        push_same(out, AsmInst::Label(self.iat_label), Ghost(done), Ghost(AsmInst::Label(internal(next, 2))));
        proof { done = done + seq![AsmInst::Label(internal(next, 2))]; }
        let ghost head2 = done;
        let mut j: usize = 0;
        assert(done =~= head2 + iat_insts(next, 0));
        while j < self.entries.len()
            invariant
                j <= self.entries.len(),
                is_table(*self, next, kinds),
                is_block(8),
                is_block(40),
                done == head2 + iat_insts(next, j as int),
                same_insts(out@, done),
            decreases self.entries.len() - j,
        {
            let ghost label = AsmInst::Label(iat_label_of(next, j as int));
            assert(self.entries@[j as int].iat_entry_label == iat_label_of(next, j as int));
            push_same(out, AsmInst::Label(self.entries[j].iat_entry_label), Ghost(done), Ghost(label));
            push_same(out, zero_block(8), Ghost(done + seq![label]), Ghost(raw(zeros(8))));
            j += 1;
            proof {
                assert(done + seq![label] + seq![raw(zeros(8))] =~= head2 + iat_insts(next, j as int));
                done = head2 + iat_insts(next, j as int);
            }
        }
        push_same(out, zero_block(8), Ghost(done), Ghost(raw(zeros(8))));
        proof { done = done + seq![raw(zeros(8))]; }
        let ghost head3 = done;
        let mut k: usize = 0;
        assert(done =~= head3 + hint_insts(next, kinds, 0));
        while k < self.entries.len()
            invariant
                k <= self.entries.len(),
                is_table(*self, next, kinds),
                done == head3 + hint_insts(next, kinds, k as int),
                same_insts(out@, done),
            decreases self.entries.len() - k,
        {
            let ghost label = AsmInst::Label(hint_label(next, k as int));
            assert(self.entries@[k as int].hint_name_label == hint_label(next, k as int));
            push_same(out, AsmInst::Label(self.entries[k].hint_name_label), Ghost(done), Ghost(label));
            let mut bytes: Vec<u8> = Vec::new();
            bytes.push(0);
            bytes.push(0);
            push_ascii(&mut bytes, self.entries[k].kind.name());
            bytes.push(0);
            let ghost want = hint_name_bytes(kinds[k as int]);
            assert(bytes@ =~= want);
            proof { lemma_raw(bytes, want); }
            push_same(out, AsmInst::RawBytes(bytes), Ghost(done + seq![label]), Ghost(raw(want)));
            k += 1;
            proof {
                assert(done + seq![label] + seq![raw(want)] =~= head3 + hint_insts(next, kinds, k as int));
                done = head3 + hint_insts(next, kinds, k as int);
            }
        }
        push_same(out, AsmInst::Label(self.dll_name_label), Ghost(done), Ghost(AsmInst::Label(internal(next, 3))));
        proof { done = done + seq![AsmInst::Label(internal(next, 3))]; }
        let mut bytes: Vec<u8> = Vec::new();
        push_ascii(&mut bytes, "kernel32.dll");
        bytes.push(0);
        assert(bytes@ =~= dll_name_bytes());
        proof { lemma_raw(bytes, dll_name_bytes()); }
        push_same(out, AsmInst::RawBytes(bytes), Ghost(done), Ghost(raw(dll_name_bytes())));
        proof {
            done = done + seq![raw(dll_name_bytes())];
            assert(done =~= before + import_table_insts(next, kinds)) by {
                assert(head1 =~= before + seq![
                    AsmInst::Label(internal(next, 0)),
                    raw(zeros(40)),
                    AsmInst::Label(internal(next, 1)),
                ]);
                assert(head2 =~= head1 + (ilt_insts(next, n) + seq![
                    raw(zeros(8)),
                    AsmInst::Label(internal(next, 2)),
                ]));
                assert(head3 =~= head2 + (iat_insts(next, n) + seq![raw(zeros(8))]));
                assert(done =~= head3 + (hint_insts(next, kinds, n) + seq![
                    AsmInst::Label(internal(next, 3)),
                    raw(dll_name_bytes()),
                ]));
            }
        }
    }

    /// The public records of the table.
    fn into_public(
        &self,
        Ghost(next): Ghost<int>,
        Ghost(kinds): Ghost<Seq<Kernel32Import>>,
    ) -> (imports: Vec<WindowsImport>)
        requires
            is_table(*self, next, kinds),
        ensures
            imports@.len() == kinds.len(),
            forall|i: int|
                0 <= i < kinds.len() ==> {
                    let import = #[trigger] imports@[i];
                    &&& import.name@ == kinds[i].spec_name()
                    &&& import.hint_name_label == hint_label(next, i)
                    &&& import.ilt_entry_label == ilt_label_of(next, i)
                    &&& import.iat_entry_label == iat_label_of(next, i)
                },
    {
        let mut imports: Vec<WindowsImport> = Vec::new();
        let mut i: usize = 0;
        while i < self.entries.len()
            invariant
                i <= self.entries.len(),
                is_table(*self, next, kinds),
                imports@.len() == i,
                forall|k: int|
                    0 <= k < i ==> {
                        let import = #[trigger] imports@[k];
                        &&& import.name@ == kinds[k].spec_name()
                        &&& import.hint_name_label == hint_label(next, k)
                        &&& import.ilt_entry_label == ilt_label_of(next, k)
                        &&& import.iat_entry_label == iat_label_of(next, k)
                    },
            decreases self.entries.len() - i,
        {
            let entry = &self.entries[i];
            imports.push(
                WindowsImport {
                    name: entry.kind.name(),
                    hint_name_label: entry.hint_name_label,
                    ilt_entry_label: entry.ilt_entry_label,
                    iat_entry_label: entry.iat_entry_label,
                },
            );
            i += 1;
        }
        imports
    }

    /// Put the table behind the code and describe it.
    fn finish(
        self,
        code: Vec<AsmInst>,
        entry_label: AsmLabel,
        Ghost(before): Ghost<Seq<AsmInst>>,
        Ghost(next): Ghost<int>,
        Ghost(kinds): Ghost<Seq<Kernel32Import>>,
    ) -> (r: WindowsProgram)
        requires
            is_table(self, next, kinds),
            kinds.len() <= 7,
            same_insts(code@, before),
        ensures
            same_insts(r.code.insts@, before + import_table_insts(next, kinds)),
            r.entry_label == entry_label,
            describes_table(r, next, kinds),
    {
        let mut insts = code;
        self.emit(&mut insts, Ghost(before), Ghost(next), Ghost(kinds));
        let imports = self.into_public(Ghost(next), Ghost(kinds));
        WindowsProgram {
            code: AsmProgram { insts },
            entry_label,
            import_desc_label: self.desc_label,
            import_dir_size: self.import_dir_size(),
            iat_label: self.iat_label,
            iat_size: self.iat_size(),
            dll_name_label: self.dll_name_label,
            imports,
        }
    }
}

/// The entry point: align the stack and reserve the entry frame.
pub open spec fn entry_insts(entry_label: AsmLabel) -> Seq<AsmInst> {
    seq![
        AsmInst::Label(entry_label),
        AsmInst::AndRegImm32(Reg64::Rsp, (-16) as i32),
        AsmInst::AddRegImm32(Reg64::Rsp, (-48) as i32),
    ]
}

/// Emit the entry point.
fn emit_entry_prologue(out: &mut Vec<AsmInst>, entry_label: AsmLabel)
    ensures
        final(out)@ == old(out)@ + entry_insts(entry_label),
{
    let mut chunk: Vec<AsmInst> = vec![
        AsmInst::Label(entry_label),
        AsmInst::AndRegImm32(Reg64::Rsp, -16),
        AsmInst::AddRegImm32(Reg64::Rsp, -48),
    ];
    assert(chunk@ =~= entry_insts(entry_label));
    out.append(&mut chunk);
}

/// Fetch a standard handle into `dst`; leave with status 1 where it is invalid.
pub open spec fn std_handle_insts(
    get_std_handle_iat: AsmLabel,
    which: i64,
    dst: Reg64,
    exit_one_label: AsmLabel,
) -> Seq<AsmInst> {
    seq![
        AsmInst::MovRegImm64(Reg64::Rcx, which),
        AsmInst::CallMemLabel(get_std_handle_iat),
        AsmInst::CmpRegImm32(Reg64::Rax, (-1) as i32),
        AsmInst::Jz(exit_one_label),
        AsmInst::MovRegReg(dst, Reg64::Rax),
    ]
}

/// Emit the look-up of a standard handle.
fn emit_get_std_handle(
    out: &mut Vec<AsmInst>,
    get_std_handle_iat: AsmLabel,
    which: i64,
    dst: Reg64,
    exit_one_label: AsmLabel,
)
    ensures
        final(out)@ == old(out)@ + std_handle_insts(get_std_handle_iat, which, dst, exit_one_label),
{
    let mut chunk: Vec<AsmInst> = vec![
        AsmInst::MovRegImm64(Reg64::Rcx, which),
        AsmInst::CallMemLabel(get_std_handle_iat),
        AsmInst::CmpRegImm32(Reg64::Rax, -1),
        AsmInst::Jz(exit_one_label),
        AsmInst::MovRegReg(dst, Reg64::Rax),
    ];
    assert(chunk@ =~= std_handle_insts(get_std_handle_iat, which, dst, exit_one_label));
    out.append(&mut chunk);
}

/// Clear the stack slot at `rsp + disp`.
pub open spec fn zero_slot_insts(disp: i32) -> Seq<AsmInst> {
    seq![
        AsmInst::MovRegImm64(Reg64::Rax, 0),
        AsmInst::MovMemReg64(Reg64::Rsp, disp, Reg64::Rax),
    ]
}

/// Emit the clearing of a stack slot.
fn emit_zero_stack_qword(out: &mut Vec<AsmInst>, disp: i32)
    ensures
        final(out)@ == old(out)@ + zero_slot_insts(disp),
{
    let mut chunk: Vec<AsmInst> = vec![
        AsmInst::MovRegImm64(Reg64::Rax, 0),
        AsmInst::MovMemReg64(Reg64::Rsp, disp, Reg64::Rax),
    ];
    assert(chunk@ =~= zero_slot_insts(disp));
    out.append(&mut chunk);
}

/// Allocate the initial tape and point `r12` at its start, `r13` at its middle
/// and `r14` at its end; leave with status 1 where the allocation fails.
pub open spec fn init_tape_insts(
    virtual_alloc_iat: AsmLabel,
    exit_one_label: AsmLabel,
) -> Seq<AsmInst> {
    seq![
        AsmInst::MovRegImm64(Reg64::Rcx, 0),
        AsmInst::MovRegImm64(Reg64::Rdx, INITIAL_TAPE_SIZE),
        AsmInst::MovRegImm64(Reg64::R8, MEM_COMMIT_RESERVE),
        AsmInst::MovRegImm64(Reg64::R9, PAGE_READWRITE),
        AsmInst::CallMemLabel(virtual_alloc_iat),
        AsmInst::CmpRegImm32(Reg64::Rax, 0),
        AsmInst::Jz(exit_one_label),
        AsmInst::MovRegReg(Reg64::R12, Reg64::Rax),
        AsmInst::MovRegReg(Reg64::R13, Reg64::Rax),
        AsmInst::AddRegImm32(Reg64::R13, 2048),
        AsmInst::MovRegReg(Reg64::R14, Reg64::Rax),
        AsmInst::AddRegImm32(Reg64::R14, 4096),
    ]
}

/// Emit the allocation of the tape.
fn emit_init_tape(out: &mut Vec<AsmInst>, virtual_alloc_iat: AsmLabel, exit_one_label: AsmLabel)
    ensures
        final(out)@ == old(out)@ + init_tape_insts(virtual_alloc_iat, exit_one_label),
{
    let mut chunk: Vec<AsmInst> = vec![
        AsmInst::MovRegImm64(Reg64::Rcx, 0),
        AsmInst::MovRegImm64(Reg64::Rdx, INITIAL_TAPE_SIZE),
        AsmInst::MovRegImm64(Reg64::R8, MEM_COMMIT_RESERVE),
        AsmInst::MovRegImm64(Reg64::R9, PAGE_READWRITE),
        AsmInst::CallMemLabel(virtual_alloc_iat),
        AsmInst::CmpRegImm32(Reg64::Rax, 0),
        AsmInst::Jz(exit_one_label),
        AsmInst::MovRegReg(Reg64::R12, Reg64::Rax),
        AsmInst::MovRegReg(Reg64::R13, Reg64::Rax),
        AsmInst::AddRegImm32(Reg64::R13, 2048),
        AsmInst::MovRegReg(Reg64::R14, Reg64::Rax),
        AsmInst::AddRegImm32(Reg64::R14, 4096),
    ];
    assert(chunk@ =~= init_tape_insts(virtual_alloc_iat, exit_one_label));
    out.append(&mut chunk);
}

/// Allocate the output buffer and point `rbx` at its start and `rbp` at its
/// end; leave with status 1 where the allocation fails.
pub open spec fn init_output_insts(
    virtual_alloc_iat: AsmLabel,
    exit_one_label: AsmLabel,
) -> Seq<AsmInst> {
    seq![
        AsmInst::MovRegImm64(Reg64::Rcx, 0),
        AsmInst::MovRegImm64(Reg64::Rdx, OUTPUT_BUFFER_SIZE),
        AsmInst::MovRegImm64(Reg64::R8, MEM_COMMIT_RESERVE),
        AsmInst::MovRegImm64(Reg64::R9, PAGE_READWRITE),
        AsmInst::CallMemLabel(virtual_alloc_iat),
        AsmInst::CmpRegImm32(Reg64::Rax, 0),
        AsmInst::Jz(exit_one_label),
        AsmInst::MovRegReg(Reg64::Rbx, Reg64::Rax),
        AsmInst::MovRegReg(Reg64::Rbp, Reg64::Rax),
        AsmInst::AddRegImm32(Reg64::Rbp, 4096),
    ]
}

/// Emit the allocation of the output buffer.
fn emit_init_output_buffer(
    out: &mut Vec<AsmInst>,
    virtual_alloc_iat: AsmLabel,
    exit_one_label: AsmLabel,
)
    ensures
        final(out)@ == old(out)@ + init_output_insts(virtual_alloc_iat, exit_one_label),
{
    let mut chunk: Vec<AsmInst> = vec![
        AsmInst::MovRegImm64(Reg64::Rcx, 0),
        AsmInst::MovRegImm64(Reg64::Rdx, OUTPUT_BUFFER_SIZE),
        AsmInst::MovRegImm64(Reg64::R8, MEM_COMMIT_RESERVE),
        AsmInst::MovRegImm64(Reg64::R9, PAGE_READWRITE),
        AsmInst::CallMemLabel(virtual_alloc_iat),
        AsmInst::CmpRegImm32(Reg64::Rax, 0),
        AsmInst::Jz(exit_one_label),
        AsmInst::MovRegReg(Reg64::Rbx, Reg64::Rax),
        AsmInst::MovRegReg(Reg64::Rbp, Reg64::Rax),
        AsmInst::AddRegImm32(Reg64::Rbp, 4096),
    ];
    assert(chunk@ =~= init_output_insts(virtual_alloc_iat, exit_one_label));
    out.append(&mut chunk);
}

/// The flush routine: `WriteFile` of the buffered bytes in a frame of its own,
/// then reset the write pointer.
pub open spec fn flush_output_insts(label: AsmLabel, write_file_iat: AsmLabel) -> Seq<AsmInst> {
    seq![
        AsmInst::Label(label),
        AsmInst::AddRegImm32(Reg64::Rsp, (-88) as i32),
        AsmInst::MovRegImm64(Reg64::Rax, 0),
        AsmInst::MovMemReg64(Reg64::Rsp, OVERLAPPED_SLOT_DISP, Reg64::Rax),
        AsmInst::MovRegImm64(Reg64::Rax, 0),
        AsmInst::MovMemReg64(Reg64::Rsp, IO_COUNT_SLOT_DISP, Reg64::Rax),
        AsmInst::MovRegReg(Reg64::Rcx, Reg64::Rdi),
        AsmInst::LeaRegMem(Reg64::Rdx, Reg64::Rbp, (-4096) as i32),
        AsmInst::MovRegReg(Reg64::R8, Reg64::Rbx),
        AsmInst::SubRegReg(Reg64::R8, Reg64::Rdx),
        AsmInst::LeaRegMem(Reg64::R9, Reg64::Rsp, IO_COUNT_SLOT_DISP),
        AsmInst::CallMemLabel(write_file_iat),
        AsmInst::LeaRegMem(Reg64::Rbx, Reg64::Rbp, (-4096) as i32),
        AsmInst::AddRegImm32(Reg64::Rsp, CALLEE_STACK_FRAME_BYTES),
        AsmInst::Ret,
    ]
}

/// Emit the flush routine.
fn emit_flush_output(out: &mut Vec<AsmInst>, label: AsmLabel, write_file_iat: AsmLabel)
    ensures
        final(out)@ == old(out)@ + flush_output_insts(label, write_file_iat),
{
    let mut chunk: Vec<AsmInst> = vec![
        AsmInst::Label(label),
        AsmInst::AddRegImm32(Reg64::Rsp, -88),
        AsmInst::MovRegImm64(Reg64::Rax, 0),
        AsmInst::MovMemReg64(Reg64::Rsp, OVERLAPPED_SLOT_DISP, Reg64::Rax),
        AsmInst::MovRegImm64(Reg64::Rax, 0),
        AsmInst::MovMemReg64(Reg64::Rsp, IO_COUNT_SLOT_DISP, Reg64::Rax),
        AsmInst::MovRegReg(Reg64::Rcx, Reg64::Rdi),
        AsmInst::LeaRegMem(Reg64::Rdx, Reg64::Rbp, -4096),
        AsmInst::MovRegReg(Reg64::R8, Reg64::Rbx),
        AsmInst::SubRegReg(Reg64::R8, Reg64::Rdx),
        AsmInst::LeaRegMem(Reg64::R9, Reg64::Rsp, IO_COUNT_SLOT_DISP),
        AsmInst::CallMemLabel(write_file_iat),
        AsmInst::LeaRegMem(Reg64::Rbx, Reg64::Rbp, -4096),
        AsmInst::AddRegImm32(Reg64::Rsp, CALLEE_STACK_FRAME_BYTES),
        AsmInst::Ret,
    ];
    assert(chunk@ =~= flush_output_insts(label, write_file_iat));
    out.append(&mut chunk);
}

/// `ExitProcess(code)`.
pub open spec fn exit_process_insts(exit_process_iat: AsmLabel, code: i64) -> Seq<AsmInst> {
    seq![
        AsmInst::MovRegImm64(Reg64::Rcx, code),
        AsmInst::CallMemLabel(exit_process_iat),
    ]
}

/// Emit `ExitProcess(code)`.
fn emit_exit_process(out: &mut Vec<AsmInst>, exit_process_iat: AsmLabel, code: i64)
    ensures
        final(out)@ == old(out)@ + exit_process_insts(exit_process_iat, code),
{
    let mut chunk: Vec<AsmInst> = vec![
        AsmInst::MovRegImm64(Reg64::Rcx, code),
        AsmInst::CallMemLabel(exit_process_iat),
    ];
    assert(chunk@ =~= exit_process_insts(exit_process_iat, code));
    out.append(&mut chunk);
}

/// Entry of the growth routine: reserve a frame, save `rdi` and `rsi`, and double
/// `r11` until `r8 + r9` is within `[0, r11)`, where `r9` is the offset of the
/// target and `r8` is half of what is added.
pub open spec fn grow_search_insts(
    ensure_tape_label: AsmLabel,
    grow_loop: AsmLabel,
) -> Seq<AsmInst> {
    seq![
        AsmInst::Label(ensure_tape_label),
        AsmInst::AddRegImm32(Reg64::Rsp, (-88) as i32),
        AsmInst::MovMemReg64(Reg64::Rsp, STACK_SAVED_RDI, Reg64::Rdi),
        AsmInst::MovMemReg64(Reg64::Rsp, STACK_SAVED_RSI, Reg64::Rsi),
        AsmInst::MovRegReg(Reg64::R10, Reg64::R14),
        AsmInst::SubRegReg(Reg64::R10, Reg64::R12),
        AsmInst::MovRegReg(Reg64::R9, Reg64::R15),
        AsmInst::SubRegReg(Reg64::R9, Reg64::R12),
        AsmInst::MovRegReg(Reg64::R11, Reg64::R10),
        AsmInst::Label(grow_loop),
        AsmInst::AddRegReg(Reg64::R11, Reg64::R11),
        AsmInst::MovRegReg(Reg64::R8, Reg64::R11),
        AsmInst::SubRegReg(Reg64::R8, Reg64::R10),
        AsmInst::ShrRegImm8(Reg64::R8, 1),
        AsmInst::MovRegReg(Reg64::Rax, Reg64::R8),
        AsmInst::AddRegReg(Reg64::Rax, Reg64::R9),
        AsmInst::CmpRegImm32(Reg64::Rax, 0),
        AsmInst::Jl(grow_loop),
        AsmInst::CmpRegReg(Reg64::Rax, Reg64::R11),
        AsmInst::Jge(grow_loop),
    ]
}

/// Emit the search for the new length.
fn emit_grow_search(out: &mut Vec<AsmInst>, ensure_tape_label: AsmLabel, grow_loop: AsmLabel)
    ensures
        final(out)@ == old(out)@ + grow_search_insts(ensure_tape_label, grow_loop),
{
    let mut chunk: Vec<AsmInst> = vec![
        AsmInst::Label(ensure_tape_label),
        AsmInst::AddRegImm32(Reg64::Rsp, -88),
        AsmInst::MovMemReg64(Reg64::Rsp, STACK_SAVED_RDI, Reg64::Rdi),
        AsmInst::MovMemReg64(Reg64::Rsp, STACK_SAVED_RSI, Reg64::Rsi),
        AsmInst::MovRegReg(Reg64::R10, Reg64::R14),
        AsmInst::SubRegReg(Reg64::R10, Reg64::R12),
        AsmInst::MovRegReg(Reg64::R9, Reg64::R15),
        AsmInst::SubRegReg(Reg64::R9, Reg64::R12),
        AsmInst::MovRegReg(Reg64::R11, Reg64::R10),
        AsmInst::Label(grow_loop),
        AsmInst::AddRegReg(Reg64::R11, Reg64::R11),
        AsmInst::MovRegReg(Reg64::R8, Reg64::R11),
        AsmInst::SubRegReg(Reg64::R8, Reg64::R10),
        AsmInst::ShrRegImm8(Reg64::R8, 1),
        AsmInst::MovRegReg(Reg64::Rax, Reg64::R8),
        AsmInst::AddRegReg(Reg64::Rax, Reg64::R9),
        AsmInst::CmpRegImm32(Reg64::Rax, 0),
        AsmInst::Jl(grow_loop),
        AsmInst::CmpRegReg(Reg64::Rax, Reg64::R11),
        AsmInst::Jge(grow_loop),
    ];
    assert(chunk@ =~= grow_search_insts(ensure_tape_label, grow_loop));
    out.append(&mut chunk);
}

/// Allocate a tape of the new length; leave with status 1 where that fails.
pub open spec fn alloc_new_insts(
    exit_one_label: AsmLabel,
    virtual_alloc_iat: AsmLabel,
) -> Seq<AsmInst> {
    seq![
        AsmInst::MovMemReg64(Reg64::Rsp, STACK_SAVED_NEW_LEN, Reg64::R11),
        AsmInst::MovRegImm64(Reg64::Rcx, 0),
        AsmInst::MovRegReg(Reg64::Rdx, Reg64::R11),
        AsmInst::MovRegImm64(Reg64::R8, MEM_COMMIT_RESERVE),
        AsmInst::MovRegImm64(Reg64::R9, PAGE_READWRITE),
        AsmInst::CallMemLabel(virtual_alloc_iat),
        AsmInst::CmpRegImm32(Reg64::Rax, 0),
        AsmInst::Jz(exit_one_label),
    ]
}

/// Emit the allocation of the new tape.
fn emit_alloc_new(out: &mut Vec<AsmInst>, exit_one_label: AsmLabel, virtual_alloc_iat: AsmLabel)
    ensures
        final(out)@ == old(out)@ + alloc_new_insts(exit_one_label, virtual_alloc_iat),
{
    let mut chunk: Vec<AsmInst> = vec![
        AsmInst::MovMemReg64(Reg64::Rsp, STACK_SAVED_NEW_LEN, Reg64::R11),
        AsmInst::MovRegImm64(Reg64::Rcx, 0),
        AsmInst::MovRegReg(Reg64::Rdx, Reg64::R11),
        AsmInst::MovRegImm64(Reg64::R8, MEM_COMMIT_RESERVE),
        AsmInst::MovRegImm64(Reg64::R9, PAGE_READWRITE),
        AsmInst::CallMemLabel(virtual_alloc_iat),
        AsmInst::CmpRegImm32(Reg64::Rax, 0),
        AsmInst::Jz(exit_one_label),
    ];
    assert(chunk@ =~= alloc_new_insts(exit_one_label, virtual_alloc_iat));
    out.append(&mut chunk);
}

/// Compute `r8` to `r11` again, which the call has overwritten, and keep the new
/// tape's address in `rdx`.
pub open spec fn restore_lengths_insts() -> Seq<AsmInst> {
    seq![
        AsmInst::MovRegReg(Reg64::R10, Reg64::R14),
        AsmInst::SubRegReg(Reg64::R10, Reg64::R12),
        AsmInst::MovRegReg(Reg64::R9, Reg64::R15),
        AsmInst::SubRegReg(Reg64::R9, Reg64::R12),
        AsmInst::MovRegMem64(Reg64::R11, Reg64::Rsp, STACK_SAVED_NEW_LEN),
        AsmInst::MovRegReg(Reg64::R8, Reg64::R11),
        AsmInst::SubRegReg(Reg64::R8, Reg64::R10),
        AsmInst::ShrRegImm8(Reg64::R8, 1),
        AsmInst::MovRegReg(Reg64::Rdx, Reg64::Rax),
    ]
}

/// Emit the recomputation.
fn emit_restore_lengths(out: &mut Vec<AsmInst>)
    ensures
        final(out)@ == old(out)@ + restore_lengths_insts(),
{
    let mut chunk: Vec<AsmInst> = vec![
        AsmInst::MovRegReg(Reg64::R10, Reg64::R14),
        AsmInst::SubRegReg(Reg64::R10, Reg64::R12),
        AsmInst::MovRegReg(Reg64::R9, Reg64::R15),
        AsmInst::SubRegReg(Reg64::R9, Reg64::R12),
        AsmInst::MovRegMem64(Reg64::R11, Reg64::Rsp, STACK_SAVED_NEW_LEN),
        AsmInst::MovRegReg(Reg64::R8, Reg64::R11),
        AsmInst::SubRegReg(Reg64::R8, Reg64::R10),
        AsmInst::ShrRegImm8(Reg64::R8, 1),
        AsmInst::MovRegReg(Reg64::Rdx, Reg64::Rax),
    ];
    assert(chunk@ =~= restore_lengths_insts());
    out.append(&mut chunk);
}

/// Copy the old contents into the middle of the new tape.
pub open spec fn copy_old_insts() -> Seq<AsmInst> {
    seq![
        AsmInst::MovRegReg(Reg64::Rdi, Reg64::Rdx),
        AsmInst::AddRegReg(Reg64::Rdi, Reg64::R8),
        AsmInst::MovRegReg(Reg64::Rsi, Reg64::R12),
        AsmInst::MovRegReg(Reg64::Rcx, Reg64::R10),
        AsmInst::Cld,
        AsmInst::RepMovsb,
    ]
}

/// Emit the copy.
fn emit_copy_old(out: &mut Vec<AsmInst>)
    ensures
        final(out)@ == old(out)@ + copy_old_insts(),
{
    let mut chunk: Vec<AsmInst> = vec![
        AsmInst::MovRegReg(Reg64::Rdi, Reg64::Rdx),
        AsmInst::AddRegReg(Reg64::Rdi, Reg64::R8),
        AsmInst::MovRegReg(Reg64::Rsi, Reg64::R12),
        AsmInst::MovRegReg(Reg64::Rcx, Reg64::R10),
        AsmInst::Cld,
        AsmInst::RepMovsb,
    ];
    assert(chunk@ =~= copy_old_insts());
    out.append(&mut chunk);
}

/// Save the values that the next call overwrites.
pub open spec fn save_scratch_insts() -> Seq<AsmInst> {
    seq![
        AsmInst::MovMemReg64(Reg64::Rsp, STACK_SAVED_NEW_BASE, Reg64::Rdx),
        AsmInst::MovMemReg64(Reg64::Rsp, STACK_SAVED_COPY_START, Reg64::R8),
        AsmInst::MovMemReg64(Reg64::Rsp, STACK_SAVED_NEW_LEN, Reg64::R11),
        AsmInst::MovMemReg64(Reg64::Rsp, STACK_SAVED_DESIRED_OFFSET, Reg64::R9),
    ]
}

/// Emit the saving of scratch registers.
fn emit_save_scratch(out: &mut Vec<AsmInst>)
    ensures
        final(out)@ == old(out)@ + save_scratch_insts(),
{
    let mut chunk: Vec<AsmInst> = vec![
        AsmInst::MovMemReg64(Reg64::Rsp, STACK_SAVED_NEW_BASE, Reg64::Rdx),
        AsmInst::MovMemReg64(Reg64::Rsp, STACK_SAVED_COPY_START, Reg64::R8),
        AsmInst::MovMemReg64(Reg64::Rsp, STACK_SAVED_NEW_LEN, Reg64::R11),
        AsmInst::MovMemReg64(Reg64::Rsp, STACK_SAVED_DESIRED_OFFSET, Reg64::R9),
    ];
    assert(chunk@ =~= save_scratch_insts());
    out.append(&mut chunk);
}

/// Free the old tape; leave with status 1 where that fails.
pub open spec fn free_old_insts(
    exit_one_label: AsmLabel,
    virtual_free_iat: AsmLabel,
) -> Seq<AsmInst> {
    seq![
        AsmInst::MovRegReg(Reg64::Rcx, Reg64::R12),
        AsmInst::MovRegImm64(Reg64::Rdx, 0),
        AsmInst::MovRegImm64(Reg64::R8, MEM_RELEASE),
        AsmInst::CallMemLabel(virtual_free_iat),
        AsmInst::CmpRegImm32(Reg64::Rax, 0),
        AsmInst::Jz(exit_one_label),
    ]
}

/// Emit the release of the old tape.
fn emit_free_old(out: &mut Vec<AsmInst>, exit_one_label: AsmLabel, virtual_free_iat: AsmLabel)
    ensures
        final(out)@ == old(out)@ + free_old_insts(exit_one_label, virtual_free_iat),
{
    let mut chunk: Vec<AsmInst> = vec![
        AsmInst::MovRegReg(Reg64::Rcx, Reg64::R12),
        AsmInst::MovRegImm64(Reg64::Rdx, 0),
        AsmInst::MovRegImm64(Reg64::R8, MEM_RELEASE),
        AsmInst::CallMemLabel(virtual_free_iat),
        AsmInst::CmpRegImm32(Reg64::Rax, 0),
        AsmInst::Jz(exit_one_label),
    ];
    assert(chunk@ =~= free_old_insts(exit_one_label, virtual_free_iat));
    out.append(&mut chunk);
}

/// Point `r12`, `r13` and `r14` into the new tape, restore `rdi` and `rsi`, and
/// return.
pub open spec fn adopt_new_insts() -> Seq<AsmInst> {
    seq![
        AsmInst::MovRegMem64(Reg64::Rdx, Reg64::Rsp, STACK_SAVED_NEW_BASE),
        AsmInst::MovRegMem64(Reg64::R8, Reg64::Rsp, STACK_SAVED_COPY_START),
        AsmInst::MovRegMem64(Reg64::R11, Reg64::Rsp, STACK_SAVED_NEW_LEN),
        AsmInst::MovRegMem64(Reg64::R9, Reg64::Rsp, STACK_SAVED_DESIRED_OFFSET),
        AsmInst::MovRegReg(Reg64::R12, Reg64::Rdx),
        AsmInst::MovRegReg(Reg64::R13, Reg64::Rdx),
        AsmInst::AddRegReg(Reg64::R13, Reg64::R8),
        AsmInst::AddRegReg(Reg64::R13, Reg64::R9),
        AsmInst::MovRegReg(Reg64::R14, Reg64::Rdx),
        AsmInst::AddRegReg(Reg64::R14, Reg64::R11),
        AsmInst::MovRegMem64(Reg64::Rdi, Reg64::Rsp, STACK_SAVED_RDI),
        AsmInst::MovRegMem64(Reg64::Rsi, Reg64::Rsp, STACK_SAVED_RSI),
        AsmInst::AddRegImm32(Reg64::Rsp, CALLEE_STACK_FRAME_BYTES),
        AsmInst::Ret,
    ]
}

/// Emit the switch to the new tape.
fn emit_adopt_new(out: &mut Vec<AsmInst>)
    ensures
        final(out)@ == old(out)@ + adopt_new_insts(),
{
    let mut chunk: Vec<AsmInst> = vec![
        AsmInst::MovRegMem64(Reg64::Rdx, Reg64::Rsp, STACK_SAVED_NEW_BASE),
        AsmInst::MovRegMem64(Reg64::R8, Reg64::Rsp, STACK_SAVED_COPY_START),
        AsmInst::MovRegMem64(Reg64::R11, Reg64::Rsp, STACK_SAVED_NEW_LEN),
        AsmInst::MovRegMem64(Reg64::R9, Reg64::Rsp, STACK_SAVED_DESIRED_OFFSET),
        AsmInst::MovRegReg(Reg64::R12, Reg64::Rdx),
        AsmInst::MovRegReg(Reg64::R13, Reg64::Rdx),
        AsmInst::AddRegReg(Reg64::R13, Reg64::R8),
        AsmInst::AddRegReg(Reg64::R13, Reg64::R9),
        AsmInst::MovRegReg(Reg64::R14, Reg64::Rdx),
        AsmInst::AddRegReg(Reg64::R14, Reg64::R11),
        AsmInst::MovRegMem64(Reg64::Rdi, Reg64::Rsp, STACK_SAVED_RDI),
        AsmInst::MovRegMem64(Reg64::Rsi, Reg64::Rsp, STACK_SAVED_RSI),
        AsmInst::AddRegImm32(Reg64::Rsp, CALLEE_STACK_FRAME_BYTES),
        AsmInst::Ret,
    ];
    assert(chunk@ =~= adopt_new_insts());
    out.append(&mut chunk);
}

/// The growth routine: double the tape length until `r15` has a place in a tape
/// that holds the old one in its middle, allocate it, copy the old contents,
/// free the old tape, and point `r12`, `r13` and `r14` into the new one.
pub open spec fn ensure_tape_insts(
    ensure_tape_label: AsmLabel,
    grow_loop: AsmLabel,
    exit_one_label: AsmLabel,
    virtual_alloc_iat: AsmLabel,
    virtual_free_iat: AsmLabel,
) -> Seq<AsmInst> {
    grow_search_insts(ensure_tape_label, grow_loop)
        + alloc_new_insts(exit_one_label, virtual_alloc_iat)
        + restore_lengths_insts()
        + copy_old_insts()
        + save_scratch_insts()
        + free_old_insts(exit_one_label, virtual_free_iat)
        + adopt_new_insts()
}

/// Emit the growth routine.
fn emit_ensure_tape_contains_r15(
    out: &mut Vec<AsmInst>,
    ensure_tape_label: AsmLabel,
    grow_loop: AsmLabel,
    exit_one_label: AsmLabel,
    virtual_alloc_iat: AsmLabel,
    virtual_free_iat: AsmLabel,
)
    ensures
        final(out)@ == old(out)@ + ensure_tape_insts(ensure_tape_label, grow_loop, exit_one_label, virtual_alloc_iat, virtual_free_iat),
{
    emit_grow_search(out, ensure_tape_label, grow_loop);
    emit_alloc_new(out, exit_one_label, virtual_alloc_iat);
    emit_restore_lengths(out);
    emit_copy_old(out);
    emit_save_scratch(out);
    emit_free_old(out, exit_one_label, virtual_free_iat);
    emit_adopt_new(out);
    assert(out@ =~= old(out)@ + ensure_tape_insts(ensure_tape_label, grow_loop, exit_one_label, virtual_alloc_iat, virtual_free_iat));
}

/// Output and input through `kernel32.dll`.
pub struct WindowsEmitter {
    /// Address-table label of `ReadFile`.
    pub read_file_iat: AsmLabel,
    /// Address-table label of `GetLastError`.
    pub get_last_error_iat: AsmLabel,
}

impl PlatformEmitter for WindowsEmitter {
    /// Append the cell to the output buffer; flush where it is full.
    open spec fn put_byte_insts(&self, next: int, flush_output: AsmLabel) -> Seq<AsmInst> {
        seq![
            AsmInst::MovAlMemR13,
            AsmInst::MovMemRbxAl,
            AsmInst::AddRegImm32(Reg64::Rbx, 1),
            AsmInst::CmpRegReg(Reg64::Rbx, Reg64::Rbp),
            AsmInst::Jnz(internal(next, 0)),
            AsmInst::Call(flush_output),
            AsmInst::Label(internal(next, 0)),
        ]
    }

    open spec fn put_byte_labels(&self) -> nat {
        1
    }

    /// Flush, then `ReadFile` of one byte: the end of the input and a broken
    /// pipe store 255, another failure leaves with status 1.
    open spec fn get_byte_insts(
        &self,
        next: int,
        exit_one: AsmLabel,
        flush_output: AsmLabel,
    ) -> Seq<AsmInst> {
        seq![
            AsmInst::Call(flush_output),
            AsmInst::MovRegImm64(Reg64::Rax, 0),
            AsmInst::MovMemReg64(Reg64::Rsp, IO_COUNT_SLOT_DISP, Reg64::Rax),
            AsmInst::MovRegReg(Reg64::Rcx, Reg64::Rsi),
            AsmInst::MovRegReg(Reg64::Rdx, Reg64::R13),
            AsmInst::MovRegImm64(Reg64::R8, 1),
            AsmInst::LeaRegMem(Reg64::R9, Reg64::Rsp, IO_COUNT_SLOT_DISP),
            AsmInst::CallMemLabel(self.read_file_iat),
            AsmInst::CmpRegImm32(Reg64::Rax, 0),
            AsmInst::Jnz(internal(next, 2)),
            AsmInst::CallMemLabel(self.get_last_error_iat),
            AsmInst::CmpRegImm32(Reg64::Rax, ERROR_HANDLE_EOF),
            AsmInst::Jz(internal(next, 1)),
            AsmInst::CmpRegImm32(Reg64::Rax, ERROR_BROKEN_PIPE),
            AsmInst::Jz(internal(next, 1)),
            AsmInst::Jmp(exit_one),
            AsmInst::Label(internal(next, 2)),
            AsmInst::MovRegMem64(Reg64::Rax, Reg64::Rsp, IO_COUNT_SLOT_DISP),
            AsmInst::CmpRegImm32(Reg64::Rax, 0),
            AsmInst::Jnz(internal(next, 0)),
            AsmInst::Label(internal(next, 1)),
            AsmInst::MovMem8Imm8(Reg64::R13, 255),
            AsmInst::Label(internal(next, 0)),
        ]
    }

    open spec fn get_byte_labels(&self) -> nat {
        3
    }

    open spec fn aligns_rsp(&self) -> bool {
        true
    }

    open spec fn aligns_loops(&self) -> bool {
        true
    }

    fn emit_put_byte(
        &self,
        out: &mut Vec<AsmInst>,
        labels: &mut LabelAllocator,
        flush_output_label: AsmLabel,
    ) {
        let skip = labels.fresh();
        let mut chunk: Vec<AsmInst> = vec![
            AsmInst::MovAlMemR13,
            AsmInst::MovMemRbxAl,
            AsmInst::AddRegImm32(Reg64::Rbx, 1),
            AsmInst::CmpRegReg(Reg64::Rbx, Reg64::Rbp),
            AsmInst::Jnz(skip),
            AsmInst::Call(flush_output_label),
            AsmInst::Label(skip),
        ];
        assert(chunk@ =~= self.put_byte_insts(old(labels).next(), flush_output_label));
        out.append(&mut chunk);
    }

    fn emit_get_byte(
        &self,
        out: &mut Vec<AsmInst>,
        labels: &mut LabelAllocator,
        exit_one_label: AsmLabel,
        flush_output_label: AsmLabel,
    ) {
        let done = labels.fresh();
        let eof = labels.fresh();
        let read_ok = labels.fresh();
        let mut chunk: Vec<AsmInst> = vec![
            AsmInst::Call(flush_output_label),
            AsmInst::MovRegImm64(Reg64::Rax, 0),
            AsmInst::MovMemReg64(Reg64::Rsp, IO_COUNT_SLOT_DISP, Reg64::Rax),
            AsmInst::MovRegReg(Reg64::Rcx, Reg64::Rsi),
            AsmInst::MovRegReg(Reg64::Rdx, Reg64::R13),
            AsmInst::MovRegImm64(Reg64::R8, 1),
            AsmInst::LeaRegMem(Reg64::R9, Reg64::Rsp, IO_COUNT_SLOT_DISP),
            AsmInst::CallMemLabel(self.read_file_iat),
            AsmInst::CmpRegImm32(Reg64::Rax, 0),
            AsmInst::Jnz(read_ok),
            AsmInst::CallMemLabel(self.get_last_error_iat),
            AsmInst::CmpRegImm32(Reg64::Rax, ERROR_HANDLE_EOF),
            AsmInst::Jz(eof),
            AsmInst::CmpRegImm32(Reg64::Rax, ERROR_BROKEN_PIPE),
            AsmInst::Jz(eof),
            AsmInst::Jmp(exit_one_label),
            AsmInst::Label(read_ok),
            AsmInst::MovRegMem64(Reg64::Rax, Reg64::Rsp, IO_COUNT_SLOT_DISP),
            AsmInst::CmpRegImm32(Reg64::Rax, 0),
            AsmInst::Jnz(done),
            AsmInst::Label(eof),
            AsmInst::MovMem8Imm8(Reg64::R13, 255),
            AsmInst::Label(done),
        ];
        assert(chunk@ =~= self.get_byte_insts(
            old(labels).next(),
            exit_one_label,
            flush_output_label,
        ));
        out.append(&mut chunk);
    }

    fn needs_rsp_alignment(&self) -> (r: bool) {
        true
    }

    fn needs_loop_alignment(&self) -> (r: bool) {
        true
    }
}

/// The imports of a translated program.
pub open spec fn full_imports() -> Seq<Kernel32Import> {
    seq![
        Kernel32Import::ExitProcess,
        Kernel32Import::GetLastError,
        Kernel32Import::GetStdHandle,
        Kernel32Import::ReadFile,
        Kernel32Import::WriteFile,
        Kernel32Import::VirtualAlloc,
        Kernel32Import::VirtualFree,
    ]
}

/// The first label of a translated program's import table: five labels are
/// taken by the entry point and the routines.
pub open spec fn full_table_next() -> int {
    LABEL_BASE - 5
}

/// The first label of a translated program's body.
pub open spec fn body_next() -> int {
    full_table_next() - table_labels(7)
}

/// The labels of the Windows run-time routines.
pub open spec fn windows_routines() -> Routines {
    Routines {
        ensure_tape: internal(LABEL_BASE as int, 1),
        flush_output: internal(LABEL_BASE as int, 4),
        exit_one: internal(LABEL_BASE as int, 2),
    }
}

/// The emitter of a translated program.
pub open spec fn windows_emitter() -> WindowsEmitter {
    WindowsEmitter {
        read_file_iat: iat_label_of(full_table_next(), 3),
        get_last_error_iat: iat_label_of(full_table_next(), 1),
    }
}

/// The programs that the Windows back end translates.
pub open spec fn windows_ok(lir: LirProgram) -> bool {
    lir_ok(windows_emitter(), lir.insts@, windows_routines(), body_next(), 0)
}

/// The translated body of a program.
pub open spec fn windows_body(lir: LirProgram) -> Seq<AsmInst> {
    lir_body(
        windows_emitter(),
        lir.insts@,
        windows_routines(),
        body_next(),
        lir.insts@.len() as int,
    ).insts
}

/// Set-up: entry point, standard handles, tape and output buffer.
pub open spec fn setup_insts() -> Seq<AsmInst> {
    let t = full_table_next();
    let exit_one = windows_routines().exit_one;
    entry_insts(internal(LABEL_BASE as int, 0)) + zero_slot_insts(OVERLAPPED_SLOT_DISP)
        + std_handle_insts(iat_label_of(t, 2), STD_INPUT_HANDLE, Reg64::Rsi, exit_one)
        + std_handle_insts(iat_label_of(t, 2), STD_OUTPUT_HANDLE, Reg64::Rdi, exit_one)
        + init_tape_insts(iat_label_of(t, 5), exit_one) + init_output_insts(
        iat_label_of(t, 5),
        exit_one,
    )
}

/// What follows the body: normal exit, routines, failure exit.
pub open spec fn epilogue_insts() -> Seq<AsmInst> {
    let t = full_table_next();
    let routines = windows_routines();
    seq![AsmInst::Call(routines.flush_output)] + exit_process_insts(iat_label_of(t, 0), 0)
        + flush_output_insts(routines.flush_output, iat_label_of(t, 4)) + ensure_tape_insts(
        routines.ensure_tape,
        internal(LABEL_BASE as int, 3),
        routines.exit_one,
        iat_label_of(t, 5),
        iat_label_of(t, 6),
    ) + seq![AsmInst::Label(routines.exit_one)] + exit_process_insts(iat_label_of(t, 0), 1)
}

/// The whole program: set-up, body, exits and routines, import table.
pub open spec fn windows_insts(lir: LirProgram) -> Seq<AsmInst> {
    setup_insts() + windows_body(lir) + epilogue_insts() + import_table_insts(
        full_table_next(),
        full_imports(),
    )
}

/// Compile a LIR program into a Windows program: set-up, body, exits,
/// routines and the import table.
#[verifier::rlimit(40)]
pub fn compile_lir_to_windows_program(lir: &LirProgram) -> (r: WindowsProgram)
    requires
        windows_ok(*lir),
    ensures
        same_insts(r.code.insts@, windows_insts(*lir)),
        r.entry_label == internal(LABEL_BASE as int, 0),
        describes_table(r, full_table_next(), full_imports()),
{
    let mut labels = LabelAllocator::new(LABEL_BASE, 0);
    let entry_label = labels.fresh();
    let ensure_tape = labels.fresh();
    let exit_one = labels.fresh();
    let grow_loop = labels.fresh();
    let flush_output = labels.fresh();
    let kinds: Vec<Kernel32Import> = vec![
        Kernel32Import::ExitProcess,
        Kernel32Import::GetLastError,
        Kernel32Import::GetStdHandle,
        Kernel32Import::ReadFile,
        Kernel32Import::WriteFile,
        Kernel32Import::VirtualAlloc,
        Kernel32Import::VirtualFree,
    ];
    let ghost all = full_imports();
    let ghost t = full_table_next();
    assert(kinds@ =~= all);
    let imports = Kernel32Imports::new(&mut labels, &kinds);
    let exit_process = imports.iat_label(Kernel32Import::ExitProcess, Ghost(t), Ghost(all), Ghost(0));
    let get_last_error = imports.iat_label(Kernel32Import::GetLastError, Ghost(t), Ghost(all), Ghost(1));
    let get_std_handle = imports.iat_label(Kernel32Import::GetStdHandle, Ghost(t), Ghost(all), Ghost(2));
    let read_file = imports.iat_label(Kernel32Import::ReadFile, Ghost(t), Ghost(all), Ghost(3));
    let write_file = imports.iat_label(Kernel32Import::WriteFile, Ghost(t), Ghost(all), Ghost(4));
    let virtual_alloc = imports.iat_label(Kernel32Import::VirtualAlloc, Ghost(t), Ghost(all), Ghost(5));
    let virtual_free = imports.iat_label(Kernel32Import::VirtualFree, Ghost(t), Ghost(all), Ghost(6));
    let mut out: Vec<AsmInst> = Vec::new();
    emit_entry_prologue(&mut out, entry_label);
    emit_zero_stack_qword(&mut out, OVERLAPPED_SLOT_DISP);
    emit_get_std_handle(&mut out, get_std_handle, STD_INPUT_HANDLE, Reg64::Rsi, exit_one);
    emit_get_std_handle(&mut out, get_std_handle, STD_OUTPUT_HANDLE, Reg64::Rdi, exit_one);
    emit_init_tape(&mut out, virtual_alloc, exit_one);
    emit_init_output_buffer(&mut out, virtual_alloc, exit_one);
    assert(out@ =~= setup_insts());
    let emitter = WindowsEmitter { read_file_iat: read_file, get_last_error_iat: get_last_error };
    let routines = Routines { ensure_tape, flush_output, exit_one };
    emit_lir_body(&mut out, &mut labels, lir, routines, &emitter);
    let ghost before_epilogue = out@;
    out.push(AsmInst::Call(flush_output));
    emit_exit_process(&mut out, exit_process, 0);
    emit_flush_output(&mut out, flush_output, write_file);
    emit_ensure_tape_contains_r15(
        &mut out,
        ensure_tape,
        grow_loop,
        exit_one,
        virtual_alloc,
        virtual_free,
    );
    out.push(AsmInst::Label(exit_one));
    emit_exit_process(&mut out, exit_process, 1);
    assert(out@ =~= before_epilogue + epilogue_insts());
    let ghost code = out@;
    imports.finish(out, entry_label, Ghost(code), Ghost(t), Ghost(all))
}

/// The program that only leaves with a status.
pub open spec fn trivial_exit_insts(exit_code: u32) -> Seq<AsmInst> {
    let t = LABEL_BASE - 1;
    entry_insts(internal(LABEL_BASE as int, 0)) + exit_process_insts(
        iat_label_of(t, 0),
        exit_code as i64,
    ) + import_table_insts(t, seq![Kernel32Import::ExitProcess])
}

/// Minimal program: `ExitProcess(exit_code)`. For sources that write nothing.
pub fn compile_trivial_exit_program(exit_code: u32) -> (r: WindowsProgram)
    ensures
        same_insts(r.code.insts@, trivial_exit_insts(exit_code)),
        r.entry_label == internal(LABEL_BASE as int, 0),
        describes_table(r, LABEL_BASE - 1, seq![Kernel32Import::ExitProcess]),
{
    let mut labels = LabelAllocator::new(LABEL_BASE, 0);
    let entry_label = labels.fresh();
    let kinds: Vec<Kernel32Import> = vec![Kernel32Import::ExitProcess];
    let ghost all = seq![Kernel32Import::ExitProcess];
    let ghost t = LABEL_BASE - 1;
    assert(kinds@ =~= all);
    let imports = Kernel32Imports::new(&mut labels, &kinds);
    let exit_process = imports.iat_label(Kernel32Import::ExitProcess, Ghost(t), Ghost(all), Ghost(0));
    let mut out: Vec<AsmInst> = Vec::new();
    emit_entry_prologue(&mut out, entry_label);
    emit_exit_process(&mut out, exit_process, exit_code as i64);
    let ghost code = out@;
    assert(code =~= entry_insts(entry_label) + exit_process_insts(exit_process, exit_code as i64));
    imports.finish(out, entry_label, Ghost(code), Ghost(t), Ghost(all))
}

/// The imports of a program with precomputed output.
pub open spec fn stdout_imports() -> Seq<Kernel32Import> {
    seq![Kernel32Import::ExitProcess, Kernel32Import::GetStdHandle, Kernel32Import::WriteFile]
}

/// The code of a program with precomputed output, before its data: fetch the
/// output handle, `WriteFile`, leave with status 0, or 1 after a failure.
pub open spec fn stdout_code_insts(len: i64) -> Seq<AsmInst> {
    let t = LABEL_BASE - 3;
    let stdout_bytes = internal(LABEL_BASE as int, 1);
    let exit_one = internal(LABEL_BASE as int, 2);
    entry_insts(internal(LABEL_BASE as int, 0)) + zero_slot_insts(OVERLAPPED_SLOT_DISP)
        + std_handle_insts(iat_label_of(t, 1), STD_OUTPUT_HANDLE, Reg64::Rdi, exit_one)
        + zero_slot_insts(IO_COUNT_SLOT_DISP) + seq![
        AsmInst::MovRegReg(Reg64::Rcx, Reg64::Rdi),
        AsmInst::LeaRegLabel(Reg64::Rdx, stdout_bytes),
        AsmInst::MovRegImm64(Reg64::R8, len),
        AsmInst::LeaRegMem(Reg64::R9, Reg64::Rsp, IO_COUNT_SLOT_DISP),
        AsmInst::CallMemLabel(iat_label_of(t, 2)),
        AsmInst::CmpRegImm32(Reg64::Rax, 0),
        AsmInst::Jz(exit_one),
    ] + exit_process_insts(iat_label_of(t, 0), 0) + seq![AsmInst::Label(exit_one)]
        + exit_process_insts(iat_label_of(t, 0), 1)
}

/// A program with precomputed output.
pub open spec fn precomputed_insts(data: Seq<u8>) -> Seq<AsmInst> {
    stdout_code_insts(data.len() as i64) + seq![
        AsmInst::Label(internal(LABEL_BASE as int, 1)),
        raw(data),
    ] + import_table_insts(LABEL_BASE - 3, stdout_imports())
}

/// Write `data` to standard output and exit; just the exit for empty `data`.
pub fn compile_precomputed_stdout_program(data: &[u8]) -> (r: WindowsProgram)
    requires
        data@.len() <= i64::MAX,
    ensures
        r.entry_label == internal(LABEL_BASE as int, 0),
        data@.len() == 0 ==> same_insts(r.code.insts@, trivial_exit_insts(0)) && describes_table(
            r,
            LABEL_BASE - 1,
            seq![Kernel32Import::ExitProcess],
        ),
        data@.len() > 0 ==> same_insts(r.code.insts@, precomputed_insts(data@))
            && describes_table(r, LABEL_BASE - 3, stdout_imports()),
{
    if data.len() == 0 {
        return compile_trivial_exit_program(0);
    }
    let mut labels = LabelAllocator::new(LABEL_BASE, 0);
    let entry_label = labels.fresh();
    let stdout_bytes = labels.fresh();
    let exit_one = labels.fresh();
    let kinds: Vec<Kernel32Import> = vec![
        Kernel32Import::ExitProcess,
        Kernel32Import::GetStdHandle,
        Kernel32Import::WriteFile,
    ];
    let ghost all = stdout_imports();
    let ghost t = LABEL_BASE - 3;
    assert(kinds@ =~= all);
    let imports = Kernel32Imports::new(&mut labels, &kinds);
    let exit_process = imports.iat_label(Kernel32Import::ExitProcess, Ghost(t), Ghost(all), Ghost(0));
    let get_std_handle = imports.iat_label(Kernel32Import::GetStdHandle, Ghost(t), Ghost(all), Ghost(1));
    let write_file = imports.iat_label(Kernel32Import::WriteFile, Ghost(t), Ghost(all), Ghost(2));
    let mut out: Vec<AsmInst> = Vec::new();
    emit_entry_prologue(&mut out, entry_label);
    emit_zero_stack_qword(&mut out, OVERLAPPED_SLOT_DISP);
    emit_get_std_handle(&mut out, get_std_handle, STD_OUTPUT_HANDLE, Reg64::Rdi, exit_one);
    emit_zero_stack_qword(&mut out, IO_COUNT_SLOT_DISP);
    let mut call: Vec<AsmInst> = vec![
        AsmInst::MovRegReg(Reg64::Rcx, Reg64::Rdi),
        AsmInst::LeaRegLabel(Reg64::Rdx, stdout_bytes),
        AsmInst::MovRegImm64(Reg64::R8, data.len() as i64),
        AsmInst::LeaRegMem(Reg64::R9, Reg64::Rsp, IO_COUNT_SLOT_DISP),
        AsmInst::CallMemLabel(write_file),
        AsmInst::CmpRegImm32(Reg64::Rax, 0),
        AsmInst::Jz(exit_one),
    ];
    out.append(&mut call);
    emit_exit_process(&mut out, exit_process, 0);
    out.push(AsmInst::Label(exit_one));
    emit_exit_process(&mut out, exit_process, 1);
    assert(out@ =~= stdout_code_insts(data@.len() as i64));
    let ghost code = out@;
    let bytes: Vec<u8> = copy_of(data);
    proof {
        lemma_raw(bytes, data@);
        assert(same_insts(out@, code));
    }
    let ghost label = AsmInst::Label(internal(LABEL_BASE as int, 1));
    push_same(&mut out, AsmInst::Label(stdout_bytes), Ghost(code), Ghost(label));
    push_same(&mut out, AsmInst::RawBytes(bytes), Ghost(code + seq![label]), Ghost(raw(data@)));
    let ghost before = code + seq![label, raw(data@)];
    assert(code + seq![label] + seq![raw(data@)] =~= before);
    imports.finish(out, entry_label, Ghost(before), Ghost(t), Ghost(all))
}

/// The bytes of a slice as a vector.
fn copy_of(data: &[u8]) -> (v: Vec<u8>)
    ensures
        v@ == data@,
{
    let mut v: Vec<u8> = Vec::new();
    let mut i: usize = 0;
    while i < data.len()
        invariant
            i <= data.len(),
            v@ == data@.take(i as int),
        decreases data.len() - i,
    {
        v.push(data[i]);
        i += 1;
        assert(v@ =~= data@.take(i as int));
    }
    assert(v@ =~= data@);
    v
}

} // verus!
