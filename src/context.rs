use vstd::prelude::*;
use crate::kernel::KernelKey;

verus! {

/// The state of one device buffer: its elements and how many tensor handles
/// own it.
pub struct BufferState {
    pub data: Seq<i32>,
    pub owners: nat,
}

/// What a buffer becomes when one of its handles is dropped: its storage is
/// freed with the last owner.
pub open spec fn after_release(s: BufferState) -> BufferState {
    if s.owners <= 1 {
        BufferState { data: Seq::empty(), owners: 0 }
    } else {
        BufferState { data: s.data, owners: (s.owners - 1) as nat }
    }
}

/// Device storage: a table of buffers, each with the count of handles that own
/// it. A buffer may be written in place only while it has a single owner.
/// It also keeps the registry of compiled kernels, each specialization at
/// most once.
pub struct ComputeContext {
    buffers: Vec<Vec<i32>>,
    owners: Vec<usize>,
    kernels: Vec<KernelKey>,
    device: usize,
}

impl ComputeContext {
    pub closed spec fn wf(&self) -> bool {
        &&& self.buffers.len() == self.owners.len()
        &&& forall|b: int| 0 <= b < self.buffers.len() ==> #[trigger] self.buffers@[b]@.len() <= usize::MAX
        &&& self.kernels@.no_duplicates()
    }

    /// The specializations compiled so far, in order of compilation.
    pub closed spec fn compiled(&self) -> Seq<KernelKey> {
        self.kernels@
    }

    pub closed spec fn view(&self) -> Seq<BufferState> {
        Seq::new(
            self.buffers.len() as nat,
            |b: int| BufferState { data: self.buffers@[b]@, owners: self.owners@[b] as nat },
        )
    }

    pub open spec fn len(&self) -> nat {
        self.view().len()
    }

    pub open spec fn contents(&self, b: usize) -> Seq<i32> {
        self.view()[b as int].data
    }

    pub open spec fn owner_count(&self, b: usize) -> nat {
        self.view()[b as int].owners
    }

    /// A buffer that a live handle may refer to.
    pub open spec fn live(&self, b: usize) -> bool {
        b < self.len() && self.owner_count(b) >= 1
    }

    /// A buffer holds at most `usize::MAX` elements.
    pub proof fn lemma_contents_len(&self, b: usize)
        requires
            self.wf(),
            b < self.len(),
        ensures
            self.contents(b).len() <= usize::MAX,
    {
    }

    pub fn new() -> (r: ComputeContext)
        ensures
            r.wf(),
            r.len() == 0,
            r.compiled().len() == 0,
            r.device_id() == 0,
    {
        ComputeContext { buffers: Vec::new(), owners: Vec::new(), kernels: Vec::new(), device: 0 }
    }

    /// The identity of the device this context drives.
    pub closed spec fn device_id(&self) -> usize {
        self.device
    }

    pub fn device(&self) -> (r: usize)
        ensures
            r == self.device_id(),
    {
        self.device
    }

    /// A context for the device with identity `device`.
    pub fn for_device(device: usize) -> (r: ComputeContext)
        ensures
            r.wf(),
            r.len() == 0,
            r.compiled().len() == 0,
            r.device_id() == device,
    {
        ComputeContext { buffers: Vec::new(), owners: Vec::new(), kernels: Vec::new(), device }
    }

    /// Number of buffers allocated so far.
    pub fn buffer_count(&self) -> (r: usize)
        requires
            self.wf(),
        ensures
            r == self.len(),
    {
        self.buffers.len()
    }

    /// Number of specializations compiled so far.
    pub fn compiled_count(&self) -> (r: usize)
        ensures
            r == self.compiled().len(),
    {
        self.kernels.len()
    }

    /// The compiled kernel for a specialization: compiled on first use and
    /// reused afterwards, so the registry holds each specialization once.
    pub fn compile(&mut self, key: KernelKey) -> (id: usize)
        requires
            old(self).wf(),
        ensures
            final(self).device_id() == old(self).device_id(),
            final(self).wf(),
            final(self).view() == old(self).view(),
            old(self).compiled().contains(key) ==> final(self).compiled() == old(self).compiled(),
            !old(self).compiled().contains(key) ==> final(self).compiled() == old(self).compiled().push(key),
            id < final(self).compiled().len(),
            final(self).compiled()[id as int] == key,
    {
        let n = self.kernels.len();
        let mut i: usize = 0;
        while i < n
            invariant
                n == self.kernels@.len(),
                i <= n,
                self.wf(),
                self.kernels@ == old(self).kernels@,
                self.view() == old(self).view(),
                forall|j: int| 0 <= j < i ==> self.kernels@[j] != key,
            decreases n - i,
        {
            if self.kernels[i] == key {
                return i;
            }
            i = i + 1;
        }
        self.kernels.push(key);
        proof {
            assert(self.view() =~= old(self).view());
            assert forall|a: int, b: int|
                0 <= a < self.kernels@.len() && 0 <= b < self.kernels@.len() && a != b implies self.kernels@[a]
                != self.kernels@[b] by {
                if a == n as int {
                    assert(old(self).kernels@[b] != key);
                } else if b == n as int {
                    assert(old(self).kernels@[a] != key);
                }
            }
        }
        n
    }

    /// Allocates a zero-filled buffer of `len` elements, owned by one handle.
    pub fn create_buffer(&mut self, len: usize) -> (b: usize)
        requires
            old(self).wf(),
        ensures
            final(self).device_id() == old(self).device_id(),
            final(self).wf(),
            b == old(self).len(),
            final(self).view() == old(self).view().push(
                BufferState { data: Seq::new(len as nat, |i: int| 0i32), owners: 1 },
            ),
    {
        let mut data: Vec<i32> = Vec::with_capacity(len);
        let mut i: usize = 0;
        while i < len
            invariant
                i <= len,
                data@ =~= Seq::new(i as nat, |k: int| 0i32),
            decreases len - i,
        {
            data.push(0);
            i = i + 1;
        }
        self.push_buffer(data)
    }

    /// Allocates a buffer holding `data`, owned by one handle.
    pub fn create_buffer_with_data(&mut self, data: Vec<i32>) -> (b: usize)
        requires
            old(self).wf(),
        ensures
            final(self).device_id() == old(self).device_id(),
            final(self).wf(),
            b == old(self).len(),
            final(self).view() == old(self).view().push(BufferState { data: data@, owners: 1 }),
    {
        self.push_buffer(data)
    }

    fn push_buffer(&mut self, data: Vec<i32>) -> (b: usize)
        requires
            old(self).wf(),
        ensures
            final(self).device_id() == old(self).device_id(),
            final(self).wf(),
            b == old(self).len(),
            final(self).view() == old(self).view().push(BufferState { data: data@, owners: 1 }),
    {
        let b = self.buffers.len();
        let _ = data.len();
        self.buffers.push(data);
        self.owners.push(1);
        assert(self.view() =~= old(self).view().push(BufferState { data: data@, owners: 1 }));
        b
    }

    /// Reads a buffer back to the host.
    pub fn read(&self, b: usize) -> (r: Vec<i32>)
        requires
            self.wf(),
            b < self.len(),
        ensures
            r@ == self.contents(b),
    {
        self.buffers[b].clone()
    }

    /// Number of elements held by a buffer.
    pub fn buffer_len(&self, b: usize) -> (r: usize)
        requires
            self.wf(),
            b < self.len(),
        ensures
            r == self.contents(b).len(),
    {
        self.buffers[b].len()
    }

    /// One element of a buffer.
    pub(crate) fn get(&self, b: usize, i: usize) -> (r: i32)
        requires
            self.wf(),
            b < self.len(),
            i < self.contents(b).len(),
        ensures
            r == self.contents(b)[i as int],
    {
        self.buffers[b][i]
    }

    /// Writes one element of a buffer.
    pub(crate) fn set(&mut self, b: usize, i: usize, v: i32)
        requires
            old(self).wf(),
            b < old(self).len(),
            i < old(self).contents(b).len(),
        ensures
            final(self).device_id() == old(self).device_id(),
            final(self).wf(),
            final(self).view() == old(self).view().update(
                b as int,
                BufferState {
                    data: old(self).contents(b).update(i as int, v),
                    owners: old(self).owner_count(b),
                },
            ),
    {
        let mut tmp: Vec<i32> = Vec::new();
        std::mem::swap(&mut tmp, &mut self.buffers[b]);
        tmp.set(i, v);
        std::mem::swap(&mut tmp, &mut self.buffers[b]);
        assert(self.view() =~= old(self).view().update(
            b as int,
            BufferState {
                data: old(self).contents(b).update(i as int, v),
                owners: old(self).owner_count(b),
            },
        ));
    }

    /// The exclusive-access query: true when a single handle owns the buffer.
    pub fn is_exclusive(&self, b: usize) -> (r: bool)
        requires
            self.wf(),
            b < self.len(),
        ensures
            r == (self.owner_count(b) == 1),
    {
        self.owners[b] == 1
    }

    /// Registers one more handle on a buffer.
    pub(crate) fn retain(&mut self, b: usize)
        requires
            old(self).wf(),
            b < old(self).len(),
            old(self).owner_count(b) < usize::MAX,
        ensures
            final(self).device_id() == old(self).device_id(),
            final(self).wf(),
            final(self).view() == old(self).view().update(
                b as int,
                BufferState { data: old(self).contents(b), owners: old(self).owner_count(b) + 1 },
            ),
    {
        let c = self.owners[b];
        self.owners.set(b, c + 1);
        assert(self.view() =~= old(self).view().update(
            b as int,
            BufferState { data: old(self).contents(b), owners: old(self).owner_count(b) + 1 },
        ));
    }

    /// Drops one handle of a buffer; the storage is freed with the last one.
    pub(crate) fn release(&mut self, b: usize)
        requires
            old(self).wf(),
            b < old(self).len(),
        ensures
            final(self).device_id() == old(self).device_id(),
            final(self).wf(),
            final(self).view() == old(self).view().update(
                b as int,
                after_release(old(self).view()[b as int]),
            ),
    {
        let c = self.owners[b];
        if c <= 1 {
            self.owners.set(b, 0);
            self.buffers.set(b, Vec::new());
        } else {
            self.owners.set(b, c - 1);
        }
        assert(self.view() =~= old(self).view().update(
            b as int,
            after_release(old(self).view()[b as int]),
        ));
    }
}

} // verus!
