//! Bookkeeping of executable memory: which pages are asked for, in which order
//! they change their protection, and what a refusal means. The system calls
//! themselves, and the jump into the code, are made by the program.

use vstd::prelude::*;

use crate::text::{dec_signed, owned, push_dec_signed};

verus! {

/// Size of a memory page.
pub const PAGE: usize = 4096;

/// What can go wrong with executable memory.
#[derive(Debug, Clone, Copy, PartialEq, Eq)]
pub enum JitError {
    /// There is no machine code.
    EmptyCode,
    /// `mmap` refused, with the negated error number.
    MmapFailed(i64),
    /// `mprotect` refused, with the negated error number.
    MprotectFailed(i64),
    /// `munmap` refused, with the negated error number.
    MunmapFailed(i64),
}

impl JitError {
    /// The message of this error.
    pub open spec fn message(self) -> Seq<char> {
        match self {
            JitError::EmptyCode => "JIT: empty machine code"@,
            JitError::MmapFailed(e) => "JIT: mmap failed (errno "@ + dec_signed(-e) + ")"@,
            JitError::MprotectFailed(e) => "JIT: mprotect failed (errno "@ + dec_signed(-e) + ")"@,
            JitError::MunmapFailed(e) => "JIT: munmap failed (errno "@ + dec_signed(-e) + ")"@,
        }
    }

    /// The result of the system call that failed.
    pub open spec fn code(self) -> int {
        match self {
            JitError::EmptyCode => 0,
            JitError::MmapFailed(e) => e as int,
            JitError::MprotectFailed(e) => e as int,
            JitError::MunmapFailed(e) => e as int,
        }
    }

    /// The message of this error. The result of a system call is never the
    /// least number, which has no negation.
    pub fn describe(&self) -> (s: String)
        requires
            self.code() != i64::MIN,
        ensures
            s@ == self.message(),
    {
        match self {
            JitError::EmptyCode => owned("JIT: empty machine code"),
            JitError::MmapFailed(e) => errno("JIT: mmap failed (errno ", *e),
            JitError::MprotectFailed(e) => errno("JIT: mprotect failed (errno ", *e),
            JitError::MunmapFailed(e) => errno("JIT: munmap failed (errno ", *e),
        }
    }
}

/// A message that ends in an error number.
fn errno(head: &str, e: i64) -> (s: String)
    requires
        e != i64::MIN,
    ensures
        s@ == head@ + dec_signed(-e) + ")"@,
{
    let mut s = owned(head);
    push_dec_signed(&mut s, -e);
    s.append(")");
    s
}

/// The least multiple of the page size that is at least `len`.
pub fn round_up_to_page(len: usize) -> (r: usize)
    requires
        len + PAGE - 1 <= usize::MAX,
    ensures
        len <= r < len + PAGE,
        r % PAGE == 0,
{
    let pages: usize = (len + (PAGE - 1)) / PAGE;
    assert(pages * 4096 <= len + 4095 && pages * 4096 > len - 1 && (pages * 4096) % 4096 == 0)
        by (nonlinear_arith)
        requires
            pages == (len + 4095) / 4096,
            len >= 0,
    ;
    pages * PAGE
}

/// How far the pages of a buffer are.
#[derive(Debug, Clone, Copy, PartialEq, Eq)]
pub enum JitStage {
    /// No memory yet.
    Planned,
    /// Mapped at this address, readable and writable.
    Writable(i64),
    /// At this address, readable and executable.
    Executable(i64),
    /// The protection could not be changed: the pages at this address are to
    /// be given back.
    Refused(i64),
}

/// A buffer for machine code. It is planned, then mapped writable, and only
/// then, when the code is in it, made executable; it is never both.
#[derive(Debug)]
pub struct JitBuffer {
    /// How far its pages are.
    pub stage: JitStage,
    /// Its length, a multiple of the page size.
    pub len: usize,
}

impl JitBuffer {
    /// Plan a buffer for `text`: whole pages, as few as hold it. There is none
    /// for no code.
    pub fn new(text: &[u8]) -> (r: Result<Self, JitError>)
        requires
            text@.len() + PAGE - 1 <= usize::MAX,
        ensures
            text@.len() == 0 <==> r is Err,
            r is Err ==> r->Err_0 == JitError::EmptyCode,
            r is Ok ==> {
                &&& r->Ok_0.stage == JitStage::Planned
                &&& text@.len() <= r->Ok_0.len < text@.len() + PAGE
                &&& r->Ok_0.len % PAGE == 0
            },
    {
        if text.len() == 0 {
            return Err(JitError::EmptyCode);
        }
        Ok(JitBuffer { stage: JitStage::Planned, len: round_up_to_page(text.len()) })
    }

    /// Take the result of mapping `len` bytes: an address, or a negated error
    /// number.
    pub fn mapped(&mut self, ret: i64) -> (r: Result<(), JitError>)
        requires
            old(self).stage == JitStage::Planned,
        ensures
            final(self).len == old(self).len,
            ret < 0 ==> r == Err::<(), JitError>(JitError::MmapFailed(ret)) && final(self).stage
                == JitStage::Planned,
            ret >= 0 ==> r == Ok::<(), JitError>(()) && final(self).stage == JitStage::Writable(ret),
    {
        if ret < 0 {
            return Err(JitError::MmapFailed(ret));
        }
        self.stage = JitStage::Writable(ret);
        Ok(())
    }

    /// Take the result of making the written pages executable.
    pub fn protected(&mut self, ret: i64) -> (r: Result<(), JitError>)
        requires
            old(self).stage is Writable,
        ensures
            final(self).len == old(self).len,
            ret < 0 ==> r == Err::<(), JitError>(JitError::MprotectFailed(ret)) && final(self).stage
                == JitStage::Refused(old(self).stage->Writable_0),
            ret >= 0 ==> r == Ok::<(), JitError>(()) && final(self).stage == JitStage::Executable(
                old(self).stage->Writable_0,
            ),
    {
        if let JitStage::Writable(at) = self.stage {
            if ret < 0 {
                self.stage = JitStage::Refused(at);
                return Err(JitError::MprotectFailed(ret));
            }
            self.stage = JitStage::Executable(at);
        }
        Ok(())
    }

    /// The address to jump to: there is one only once the code is executable.
    pub fn entry(&self) -> (r: Option<i64>)
        ensures
            r == match self.stage {
                JitStage::Executable(at) => Some(at),
                _ => None,
            },
    {
        match self.stage {
            JitStage::Executable(at) => Some(at),
            _ => None,
        }
    }

    /// The address of the pages that are to be given back in the end.
    pub fn pages(&self) -> (r: Option<i64>)
        ensures
            r == match self.stage {
                JitStage::Planned => None,
                JitStage::Writable(at) => Some(at),
                JitStage::Executable(at) => Some(at),
                JitStage::Refused(at) => Some(at),
            },
    {
        match self.stage {
            JitStage::Planned => None,
            JitStage::Writable(at) => Some(at),
            JitStage::Executable(at) => Some(at),
            JitStage::Refused(at) => Some(at),
        }
    }
}

/// A zeroed memory region that serves as a tape of native code.
#[derive(Debug)]
pub struct JitTape {
    /// Address of its first byte.
    pub ptr: u64,
    /// Its length in bytes.
    pub len: usize,
}

impl JitTape {
    /// Whether the region ends inside the address space.
    pub open spec fn wf(self) -> bool {
        0 < self.ptr && self.ptr + self.len <= u64::MAX
    }

    /// The tape of `size` bytes that the system mapped at `ret`; a result that
    /// is no address is a refusal.
    pub fn new(size: usize, ret: i64) -> (r: Result<Self, JitError>)
        requires
            ret + size <= u64::MAX,
        ensures
            ret <= 0 ==> r == Err::<Self, JitError>(JitError::MmapFailed(-1i64)),
            ret > 0 ==> r is Ok && r->Ok_0.ptr == ret && r->Ok_0.len == size && r->Ok_0.wf(),
    {
        if ret <= 0 {
            return Err(JitError::MmapFailed(-1));
        }
        Ok(JitTape { ptr: ret as u64, len: size })
    }

    /// Address of the first byte.
    pub fn base(&self) -> (a: u64)
        ensures
            a == self.ptr,
    {
        self.ptr
    }

    /// Address of the middle, where the data pointer starts.
    pub fn data_ptr(&self) -> (a: u64)
        requires
            self.wf(),
        ensures
            a == self.ptr + self.len as int / 2,
    {
        self.ptr + (self.len / 2) as u64
    }

    /// Address behind the last byte.
    pub fn end(&self) -> (a: u64)
        requires
            self.wf(),
        ensures
            a == self.ptr + self.len,
    {
        self.ptr + self.len as u64
    }
}

/// The data pointer of a tape starts inside it, with at least as much room to
/// the right as to the left, and room on both sides where there is more than
/// one byte.
pub proof fn law_tape_starts_in_the_middle(t: JitTape)
    requires
        t.wf(),
        t.len > 0,
    ensures
        t.ptr <= t.ptr + t.len as int / 2 < t.ptr + t.len,
        t.len as int / 2 <= t.len - t.len as int / 2,
        t.len > 1 ==> t.ptr < t.ptr + t.len as int / 2,
{
}

} // verus!
