use vstd::prelude::*;

verus! {

/// A value that can only be read: no method of this type writes through it.
pub struct ReadOnly<T>(T);

impl<T> ReadOnly<T> {
    pub closed spec fn value(&self) -> T {
        self.0
    }

    /// Wraps `cell`; the view can never be turned back into a writable one.
    pub fn from_cell(cell: T) -> (r: Self)
        ensures
            r.value() == cell,
    {
        ReadOnly(cell)
    }

    /// Reads the wrapped value.
    pub fn get(&self) -> (r: T)
        where
            T: Copy,
        ensures
            r == self.value(),
    {
        self.0
    }
}


/// Where a node's output is written: a slot of the enclosing scope, or a
/// buffer of this scope.
#[derive(PartialEq, Eq, Structural, Clone, Copy, Debug, Hash)]
pub enum OutputBufferIndex {
    Master(usize),
    Local(usize),
}

/// Where a node's input comes from: an input of the enclosing scope, or a
/// buffer written earlier in this scope.
#[derive(PartialEq, Eq, Structural, Clone, Copy, Debug, Hash)]
pub enum BufferIndex {
    MasterInput(usize),
    Output(OutputBufferIndex),
}

/// A buffer of `len` copies of `zero`.
pub fn new_owned_buffer<T: Copy>(len: usize, zero: T) -> (r: Vec<T>)
    ensures
        r@ == Seq::new(len as nat, |i: int| zero),
{
    let mut r: Vec<T> = Vec::new();
    let mut k: usize = 0;
    while k < len
        invariant
            k <= len,
            r@ == Seq::new(k as nat, |i: int| zero),
        decreases len - k,
    {
        r.push(zero);
        k = k + 1;
        assert(r@ =~= Seq::new(k as nat, |i: int| zero));
    }
    r
}

/// A scope: the buffers it owns and, unless it is top-level, the enclosing
/// scope it forwards `Master` references to.
pub struct LocalBufferNode<T> {
    parent: Option<Box<BufferNode<T>>>,
    buffers: Vec<Vec<T>>,
}

/// A scope together with the tables that say, for each port of one node,
/// where its buffer is found (`None`: unconnected).
pub struct BufferNode<T> {
    node: LocalBufferNode<T>,
    inputs: Vec<Option<BufferIndex>>,
    outputs: Vec<Option<OutputBufferIndex>>,
}

impl<T> LocalBufferNode<T> {
    pub closed spec fn parent_node(&self) -> Option<BufferNode<T>> {
        match self.parent {
            Some(p) => Some(*p),
            None => None,
        }
    }

    pub closed spec fn local_buffers(&self) -> Seq<Vec<T>> {
        self.buffers@
    }

    /// Number of enclosing scopes.
    pub closed spec fn depth(&self) -> nat
        decreases self,
    {
        match self.parent {
            Some(p) => 1 + p.node.depth(),
            None => 0,
        }
    }

    /// `o` names something this scope can resolve without failing.
    pub open spec fn can_output(&self, o: OutputBufferIndex) -> bool {
        match o {
            OutputBufferIndex::Master(_) => self.parent_node() is Some,
            OutputBufferIndex::Local(i) => i < self.local_buffers().len(),
        }
    }

    pub open spec fn can_input(&self, b: BufferIndex) -> bool {
        match b {
            BufferIndex::MasterInput(_) => self.parent_node() is Some,
            BufferIndex::Output(o) => self.can_output(o),
        }
    }

    /// Every table of every enclosing scope names only what its scope can
    /// resolve.
    pub closed spec fn wf(&self) -> bool
        decreases self.depth(), 0nat,
    {
        match self.parent {
            Some(p) => p.table_wf() && p.node.wf(),
            None => true,
        }
    }

    /// The buffer that `o` resolves to.
    pub open spec fn output_buffer(&self, o: OutputBufferIndex) -> Option<Seq<T>>
        decreases self.depth(), 1nat,
    {
        match o {
            OutputBufferIndex::Master(i) => match self.parent_node() {
                Some(p) => p.output_at(i),
                None => None,
            },
            OutputBufferIndex::Local(i) => if i < self.local_buffers().len() {
                Some(self.local_buffers()[i as int]@)
            } else {
                None
            },
        }
    }

    /// The buffer that `b` resolves to.
    pub open spec fn input_buffer(&self, b: BufferIndex) -> Option<Seq<T>>
        decreases self.depth(), 2nat,
    {
        match b {
            BufferIndex::MasterInput(i) => match self.parent_node() {
                Some(p) => p.input_at(i),
                None => None,
            },
            BufferIndex::Output(o) => self.output_buffer(o),
        }
    }

    /// A scope that owns `buffers` and has no enclosing scope.
    pub fn toplevel(buffers: Vec<Vec<T>>) -> (r: Self)
        ensures
            r.wf(),
            r.parent_node() is None,
            r.local_buffers() == buffers@,
    {
        LocalBufferNode { parent: None, buffers }
    }

    /// Gives the scope the index tables of one node.
    pub fn with_indices(self, inputs: Vec<Option<BufferIndex>>, outputs: Vec<Option<OutputBufferIndex>>) -> (r: BufferNode<T>)
        requires
            self.wf(),
            forall|i: int| 0 <= i < inputs@.len() && (#[trigger] inputs@[i]) is Some ==> self.can_input(inputs@[i].unwrap()),
            forall|i: int| 0 <= i < outputs@.len() && (#[trigger] outputs@[i]) is Some ==> self.can_output(outputs@[i].unwrap()),
        ensures
            r.wf(),
            r.scope() == self,
            r.input_table() == inputs@,
            r.output_table() == outputs@,
    {
        BufferNode { node: self, inputs, outputs }
    }

    /// Views the samples `start .. start + len` of every buffer of the scope.
    pub fn with_buffer_pos(self, start: usize, len: usize) -> (r: LocalBufferHandle<T>)
        requires
            len > 0,
        ensures
            r.scope() == self,
            r.window_start() == start,
            r.window_len() == len,
    {
        LocalBufferHandle { start, len, node: self }
    }

    /// Takes the scope apart: its enclosing scope, if any, and its buffers.
    pub fn into_parts(self) -> (r: (Option<BufferNode<T>>, Vec<Vec<T>>))
        ensures
            r.0 == self.parent_node(),
            r.1@ == self.local_buffers(),
            self.wf() && r.0 is Some ==> r.0.unwrap().wf(),
    {
        match self.parent {
            Some(p) => (Some(*p), self.buffers),
            None => (None, self.buffers),
        }
    }

    /// Reads the buffer that `buf_index` resolves to.
    pub fn get_output_shared(&self, buf_index: OutputBufferIndex) -> (r: Option<&[T]>)
        requires
            self.wf(),
            self.can_output(buf_index),
        ensures
            r is Some <==> self.output_buffer(buf_index) is Some,
            r is Some ==> r.unwrap()@ == self.output_buffer(buf_index).unwrap(),
        decreases self.depth(), 1nat,
    {
        match buf_index {
            OutputBufferIndex::Master(i) => match &self.parent {
                Some(p) => p.get_output_shared(i),
                None => None,
            },
            OutputBufferIndex::Local(i) => Some(self.buffers[i].as_slice()),
        }
    }

    /// Reads the buffer that `buf_index` resolves to.
    pub fn get_input_shared(&self, buf_index: BufferIndex) -> (r: Option<&[T]>)
        requires
            self.wf(),
            self.can_input(buf_index),
        ensures
            r is Some <==> self.input_buffer(buf_index) is Some,
            r is Some ==> r.unwrap()@ == self.input_buffer(buf_index).unwrap(),
        decreases self.depth(), 2nat,
    {
        match buf_index {
            BufferIndex::MasterInput(i) => match &self.parent {
                Some(p) => p.get_input_shared(i),
                None => None,
            },
            BufferIndex::Output(o) => self.get_output_shared(o),
        }
    }

    /// Reads the buffer that `buf_index` resolves to.
    pub fn get_input(&self, buf_index: BufferIndex) -> (r: Option<&[T]>)
        requires
            self.wf(),
            self.can_input(buf_index),
        ensures
            r is Some <==> self.input_buffer(buf_index) is Some,
            r is Some ==> r.unwrap()@ == self.input_buffer(buf_index).unwrap(),
    {
        self.get_input_shared(buf_index)
    }

    /// `new` is this scope with the buffer that `o` resolves to holding `v`,
    /// and nothing else changed.
    pub open spec fn output_updated(&self, new: Self, o: OutputBufferIndex, v: Seq<T>) -> bool
        decreases self.depth(), 1nat,
    {
        match o {
            OutputBufferIndex::Master(i) => new.local_buffers() == self.local_buffers() && match (
                self.parent_node(),
                new.parent_node(),
            ) {
                (Some(p), Some(q)) => p.output_at_updated(q, i, v),
                _ => false,
            },
            OutputBufferIndex::Local(i) => {
                &&& new.parent_node() == self.parent_node()
                &&& new.local_buffers().len() == self.local_buffers().len()
                &&& i < self.local_buffers().len()
                &&& new.local_buffers()[i as int]@ == v
                &&& forall|j: int| 0 <= j < self.local_buffers().len() && j != i
                    ==> #[trigger] new.local_buffers()[j] == self.local_buffers()[j]
            },
        }
    }

    pub proof fn lemma_output_updated(&self, new: Self, o: OutputBufferIndex, v: Seq<T>)
        requires
            self.wf(),
            self.output_updated(new, o, v),
        ensures
            new.wf(),
            new.depth() == self.depth(),
            new.output_buffer(o) == Some(v),
            new.parent_node() is Some <==> self.parent_node() is Some,
            new.local_buffers().len() == self.local_buffers().len(),
        decreases self.depth(), 1nat,
    {
        match o {
            OutputBufferIndex::Master(i) => {
                let p = *self.parent->Some_0;
                let q = *new.parent->Some_0;
                p.lemma_output_at_updated(q, i, v);
            },
            OutputBufferIndex::Local(i) => {},
        }
    }

    /// The buffer that `buf_index` resolves to, for writing.
    pub fn get_output(&mut self, buf_index: OutputBufferIndex) -> (r: Option<&mut [T]>)
        requires
            old(self).wf(),
            old(self).can_output(buf_index),
        ensures
            r is Some <==> old(self).output_buffer(buf_index) is Some,
            r is Some ==> r.unwrap()@ == old(self).output_buffer(buf_index).unwrap()
                && old(self).output_updated(*final(self), buf_index, final(r.unwrap())@),
        decreases old(self).depth(), 1nat,
    {
        match buf_index {
            OutputBufferIndex::Master(i) => match &mut self.parent {
                Some(p) => p.get_output(i),
                None => None,
            },
            OutputBufferIndex::Local(i) => Some(self.buffers[i].as_mut_slice()),
        }
    }
}

impl<T> BufferNode<T> {
    pub closed spec fn scope(&self) -> LocalBufferNode<T> {
        self.node
    }

    pub closed spec fn input_table(&self) -> Seq<Option<BufferIndex>> {
        self.inputs@
    }

    pub closed spec fn output_table(&self) -> Seq<Option<OutputBufferIndex>> {
        self.outputs@
    }

    pub closed spec fn table_wf(&self) -> bool {
        &&& forall|i: int| 0 <= i < self.inputs@.len() && (#[trigger] self.inputs@[i]) is Some
            ==> self.node.can_input(self.inputs@[i].unwrap())
        &&& forall|i: int| 0 <= i < self.outputs@.len() && (#[trigger] self.outputs@[i]) is Some
            ==> self.node.can_output(self.outputs@[i].unwrap())
    }

    pub open spec fn wf(&self) -> bool {
        self.table_wf() && self.scope().wf()
    }

    /// The buffer of output port `i`; `None` when the port is unconnected or
    /// out of range.
    pub open spec fn output_at(&self, i: usize) -> Option<Seq<T>>
        decreases self.scope().depth(), 3nat,
    {
        if i < self.output_table().len() {
            match self.output_table()[i as int] {
                Some(o) => self.scope().output_buffer(o),
                None => None,
            }
        } else {
            None
        }
    }

    /// The buffer of input port `i`; `None` when the port is unconnected or
    /// out of range.
    pub open spec fn input_at(&self, i: usize) -> Option<Seq<T>>
        decreases self.scope().depth(), 4nat,
    {
        if i < self.input_table().len() {
            match self.input_table()[i as int] {
                Some(b) => self.scope().input_buffer(b),
                None => None,
            }
        } else {
            None
        }
    }

    /// A scope one level deeper that owns `buffers` and forwards `Master`
    /// references to this node's ports.
    pub fn append(self, buffers: Vec<Vec<T>>) -> (r: LocalBufferNode<T>)
        requires
            self.wf(),
        ensures
            r.wf(),
            r.parent_node() == Some(self),
            r.local_buffers() == buffers@,
    {
        LocalBufferNode { parent: Some(Box::new(self)), buffers }
    }

    /// Views the samples `start .. start + len` of every buffer of the node.
    pub fn with_buffer_pos(self, start: usize, len: usize) -> (r: BufferHandle<T>)
        requires
            len > 0,
        ensures
            r.buffer_node() == self,
            r.window_start() == start,
            r.window_len() == len,
    {
        BufferHandle { start, len, node: self }
    }

    /// Takes the node apart: its scope and its two index tables.
    pub fn into_parts(self) -> (r: (LocalBufferNode<T>, Vec<Option<BufferIndex>>, Vec<Option<OutputBufferIndex>>))
        ensures
            r.0 == self.scope(),
            r.1@ == self.input_table(),
            r.2@ == self.output_table(),
            self.wf() ==> r.0.wf(),
    {
        (self.node, self.inputs, self.outputs)
    }

    /// Reads the buffer of output port `index`.
    pub fn get_output_shared(&self, index: usize) -> (r: Option<&[T]>)
        requires
            self.wf(),
        ensures
            r is Some <==> self.output_at(index) is Some,
            r is Some ==> r.unwrap()@ == self.output_at(index).unwrap(),
        decreases self.scope().depth(), 3nat,
    {
        if index < self.outputs.len() {
            match self.outputs[index] {
                Some(o) => self.node.get_output_shared(o),
                None => None,
            }
        } else {
            None
        }
    }

    /// Reads the buffer of input port `index`.
    pub fn get_input_shared(&self, index: usize) -> (r: Option<&[T]>)
        requires
            self.wf(),
        ensures
            r is Some <==> self.input_at(index) is Some,
            r is Some ==> r.unwrap()@ == self.input_at(index).unwrap(),
        decreases self.scope().depth(), 4nat,
    {
        if index < self.inputs.len() {
            match self.inputs[index] {
                Some(b) => self.node.get_input_shared(b),
                None => None,
            }
        } else {
            None
        }
    }

    /// Reads the buffer of input port `index`.
    pub fn get_input(&self, index: usize) -> (r: Option<&[T]>)
        requires
            self.wf(),
        ensures
            r is Some <==> self.input_at(index) is Some,
            r is Some ==> r.unwrap()@ == self.input_at(index).unwrap(),
    {
        self.get_input_shared(index)
    }

    /// `new` is this node with the buffer of output port `i` holding `v`, and
    /// nothing else changed.
    pub open spec fn output_at_updated(&self, new: Self, i: usize, v: Seq<T>) -> bool
        decreases self.scope().depth(), 3nat,
    {
        &&& new.input_table() == self.input_table()
        &&& new.output_table() == self.output_table()
        &&& i < self.output_table().len()
        &&& match self.output_table()[i as int] {
            Some(o) => self.scope().output_updated(new.scope(), o, v),
            None => false,
        }
    }

    pub proof fn lemma_output_at_updated(&self, new: Self, i: usize, v: Seq<T>)
        requires
            self.wf(),
            self.output_at_updated(new, i, v),
        ensures
            new.wf(),
            new.scope().depth() == self.scope().depth(),
            new.output_at(i) == Some(v),
            new.input_table() == self.input_table(),
            new.output_table() == self.output_table(),
        decreases self.scope().depth(), 3nat,
    {
        let o = self.outputs@[i as int].unwrap();
        self.node.lemma_output_updated(new.node, o, v);
    }

    /// The buffer of output port `index`, for writing.
    pub fn get_output(&mut self, index: usize) -> (r: Option<&mut [T]>)
        requires
            old(self).wf(),
        ensures
            r is Some <==> old(self).output_at(index) is Some,
            r is Some ==> r.unwrap()@ == old(self).output_at(index).unwrap()
                && old(self).output_at_updated(*final(self), index, final(r.unwrap())@),
        decreases old(self).scope().depth(), 3nat,
    {
        if index < self.outputs.len() {
            match self.outputs[index] {
                Some(o) => self.node.get_output(o),
                None => None,
            }
        } else {
            None
        }
    }
}

impl<T> Default for LocalBufferNode<T> {
    /// A top-level scope with no buffers.
    fn default() -> (r: Self)
        ensures
            r.wf(),
            r.parent_node() is None,
            r.local_buffers().len() == 0,
    {
        Self::toplevel(Vec::new())
    }
}

impl<T> Default for BufferNode<T> {
    /// An empty top-level scope with empty index tables.
    fn default() -> (r: Self)
        ensures
            r.wf(),
            r.scope().parent_node() is None,
            r.scope().local_buffers().len() == 0,
            r.input_table().len() == 0,
            r.output_table().len() == 0,
    {
        LocalBufferNode::default().with_indices(Vec::new(), Vec::new())
    }
}

/// In a chain of three scopes (a top-level one, a middle one and a leaf),
/// where the leaf's enclosing node feeds its input `0` from the middle
/// scope's input `j`, and the top node feeds input `j` from its own buffer
/// `k`, the leaf resolves `MasterInput(0)` to exactly that buffer; a window
/// over the leaf then sees the matching part of it.
pub proof fn lemma_three_level_input<T>(leaf: LocalBufferNode<T>, j: usize, k: usize)
    requires
        leaf.parent_node() is Some,
        leaf.parent_node().unwrap().scope().parent_node() is Some,
        leaf.parent_node().unwrap().scope().parent_node().unwrap().scope().parent_node() is None,
        0 < leaf.parent_node().unwrap().input_table().len(),
        leaf.parent_node().unwrap().input_table()[0] == Some(BufferIndex::MasterInput(j)),
        j < leaf.parent_node().unwrap().scope().parent_node().unwrap().input_table().len(),
        leaf.parent_node().unwrap().scope().parent_node().unwrap().input_table()[j as int]
            == Some(BufferIndex::Output(OutputBufferIndex::Local(k))),
        k < leaf.parent_node().unwrap().scope().parent_node().unwrap().scope().local_buffers().len(),
    ensures
        leaf.input_buffer(BufferIndex::MasterInput(0)) == Some(
            leaf.parent_node().unwrap().scope().parent_node().unwrap().scope().local_buffers()[k as int]@),
{
    let middle = leaf.parent_node().unwrap();
    let top = middle.scope().parent_node().unwrap();
    assert(top.input_at(j) == top.scope().input_buffer(BufferIndex::Output(OutputBufferIndex::Local(k))));
    assert(middle.scope().input_buffer(BufferIndex::MasterInput(j)) == top.input_at(j));
    assert(middle.input_at(0) == middle.scope().input_buffer(BufferIndex::MasterInput(j)));
}

/// The part `lo .. lo + n` of `s`.
pub open spec fn window<T>(s: Seq<T>, lo: nat, n: nat) -> Seq<T> {
    s.subrange(lo as int, (lo + n) as int)
}

/// `s` with its part `lo .. lo + n` replaced by `w`.
pub open spec fn splice<T>(s: Seq<T>, lo: nat, n: nat, w: Seq<T>) -> Seq<T> {
    s.subrange(0, lo as int) + w + s.subrange((lo + n) as int, s.len() as int)
}

fn window_of<T>(buf: &[T], start: usize, len: usize) -> (r: &[T])
    requires
        start + len <= buf@.len(),
    ensures
        r@ == window(buf@, start as nat, len as nat),
{
    let (_, rest) = buf.split_at(start);
    let (win, _) = rest.split_at(len);
    assert(win@ =~= window(buf@, start as nat, len as nat));
    win
}

fn window_of_mut<T>(buf: &mut [T], start: usize, len: usize) -> (r: &mut [T])
    requires
        start + len <= old(buf)@.len(),
    ensures
        r@ == window(old(buf)@, start as nat, len as nat),
        final(buf)@ == splice(old(buf)@, start as nat, len as nat, final(r)@),
{
    let ghost whole = buf@;
    let (head, rest) = buf.split_at_mut(start);
    let (win, tail) = rest.split_at_mut(len);
    assert(win@ =~= window(whole, start as nat, len as nat));
    assert(has_resolved(head));
    assert(has_resolved(tail));
    win
}

/// A scope seen through the window `start .. start + len` of its buffers.
pub struct LocalBufferHandle<T> {
    start: usize,
    len: usize,
    node: LocalBufferNode<T>,
}

impl<T> LocalBufferHandle<T> {
    pub closed spec fn scope(&self) -> LocalBufferNode<T> {
        self.node
    }

    pub closed spec fn window_start(&self) -> nat {
        self.start as nat
    }

    pub closed spec fn window_len(&self) -> nat {
        self.len as nat
    }

    /// The scope, without the window.
    pub fn into_node(self) -> (r: LocalBufferNode<T>)
        ensures
            r == self.scope(),
    {
        self.node
    }

    /// Gives the scope the index tables of one node, keeping the window.
    pub fn with_indices(self, inputs: Vec<Option<BufferIndex>>, outputs: Vec<Option<OutputBufferIndex>>) -> (r: BufferHandle<T>)
        requires
            self.scope().wf(),
            forall|i: int| 0 <= i < inputs@.len() && (#[trigger] inputs@[i]) is Some ==> self.scope().can_input(inputs@[i].unwrap()),
            forall|i: int| 0 <= i < outputs@.len() && (#[trigger] outputs@[i]) is Some ==> self.scope().can_output(outputs@[i].unwrap()),
        ensures
            r.buffer_node().wf(),
            r.buffer_node().scope() == self.scope(),
            r.buffer_node().input_table() == inputs@,
            r.buffer_node().output_table() == outputs@,
            r.window_start() == self.window_start(),
            r.window_len() == self.window_len(),
    {
        BufferHandle { start: self.start, len: self.len, node: self.node.with_indices(inputs, outputs) }
    }

    /// The window of the buffer that `index` resolves to.
    pub fn get_input_shared(&self, index: BufferIndex) -> (r: Option<&[T]>)
        requires
            self.scope().wf(),
            self.scope().can_input(index),
            self.scope().input_buffer(index) is Some ==> self.window_start() + self.window_len()
                <= self.scope().input_buffer(index).unwrap().len(),
        ensures
            r is Some <==> self.scope().input_buffer(index) is Some,
            r is Some ==> r.unwrap()@ == window(self.scope().input_buffer(index).unwrap(), self.window_start(), self.window_len()),
    {
        match self.node.get_input_shared(index) {
            Some(buf) => Some(window_of(buf, self.start, self.len)),
            None => None,
        }
    }

    /// The window of the buffer that `index` resolves to.
    pub fn get_input(&self, index: BufferIndex) -> (r: Option<&[T]>)
        requires
            self.scope().wf(),
            self.scope().can_input(index),
            self.scope().input_buffer(index) is Some ==> self.window_start() + self.window_len()
                <= self.scope().input_buffer(index).unwrap().len(),
        ensures
            r is Some <==> self.scope().input_buffer(index) is Some,
            r is Some ==> r.unwrap()@ == window(self.scope().input_buffer(index).unwrap(), self.window_start(), self.window_len()),
    {
        self.get_input_shared(index)
    }

    /// The window of the buffer that `index` resolves to.
    pub fn get_output_shared(&self, index: OutputBufferIndex) -> (r: Option<&[T]>)
        requires
            self.scope().wf(),
            self.scope().can_output(index),
            self.scope().output_buffer(index) is Some ==> self.window_start() + self.window_len()
                <= self.scope().output_buffer(index).unwrap().len(),
        ensures
            r is Some <==> self.scope().output_buffer(index) is Some,
            r is Some ==> r.unwrap()@ == window(self.scope().output_buffer(index).unwrap(), self.window_start(), self.window_len()),
    {
        match self.node.get_output_shared(index) {
            Some(buf) => Some(window_of(buf, self.start, self.len)),
            None => None,
        }
    }

    /// The window of the buffer that `index` resolves to, for writing.
    pub fn get_output(&mut self, index: OutputBufferIndex) -> (r: Option<&mut [T]>)
        requires
            old(self).scope().wf(),
            old(self).scope().can_output(index),
            old(self).scope().output_buffer(index) is Some ==> old(self).window_start() + old(self).window_len()
                <= old(self).scope().output_buffer(index).unwrap().len(),
        ensures
            r is Some <==> old(self).scope().output_buffer(index) is Some,
            r is Some ==> {
                let buf = old(self).scope().output_buffer(index).unwrap();
                &&& r.unwrap()@ == window(buf, old(self).window_start(), old(self).window_len())
                &&& final(self).window_start() == old(self).window_start()
                &&& final(self).window_len() == old(self).window_len()
                &&& old(self).scope().output_updated(final(self).scope(), index,
                    splice(buf, old(self).window_start(), old(self).window_len(), final(r.unwrap())@))
            },
    {
        let start = self.start;
        let len = self.len;
        match self.node.get_output(index) {
            Some(buf) => Some(window_of_mut(buf, start, len)),
            None => None,
        }
    }
}

/// A node's buffers seen through the window `start .. start + len`.
pub struct BufferHandle<T> {
    start: usize,
    len: usize,
    node: BufferNode<T>,
}

impl<T> BufferHandle<T> {
    pub closed spec fn buffer_node(&self) -> BufferNode<T> {
        self.node
    }

    pub closed spec fn window_start(&self) -> nat {
        self.start as nat
    }

    pub closed spec fn window_len(&self) -> nat {
        self.len as nat
    }

    /// The node, without the window.
    pub fn into_node(self) -> (r: BufferNode<T>)
        ensures
            r == self.buffer_node(),
    {
        self.node
    }

    /// Length of the window.
    pub fn buffer_size(&self) -> (r: usize)
        ensures
            r == self.window_len(),
    {
        self.len
    }

    /// A scope one level deeper that owns `buffers`, with the same window.
    pub fn append(self, buffers: Vec<Vec<T>>) -> (r: LocalBufferHandle<T>)
        requires
            self.buffer_node().wf(),
        ensures
            r.scope().wf(),
            r.scope().parent_node() == Some(self.buffer_node()),
            r.scope().local_buffers() == buffers@,
            r.window_start() == self.window_start(),
            r.window_len() == self.window_len(),
    {
        LocalBufferHandle { node: self.node.append(buffers), start: self.start, len: self.len }
    }

    /// The window of the buffer of input port `index`.
    pub fn get_input_shared(&self, index: usize) -> (r: Option<&[T]>)
        requires
            self.buffer_node().wf(),
            self.buffer_node().input_at(index) is Some ==> self.window_start() + self.window_len()
                <= self.buffer_node().input_at(index).unwrap().len(),
        ensures
            r is Some <==> self.buffer_node().input_at(index) is Some,
            r is Some ==> r.unwrap()@ == window(self.buffer_node().input_at(index).unwrap(), self.window_start(), self.window_len()),
    {
        match self.node.get_input_shared(index) {
            Some(buf) => Some(window_of(buf, self.start, self.len)),
            None => None,
        }
    }

    /// The window of the buffer of input port `index`.
    pub fn get_input(&self, index: usize) -> (r: Option<&[T]>)
        requires
            self.buffer_node().wf(),
            self.buffer_node().input_at(index) is Some ==> self.window_start() + self.window_len()
                <= self.buffer_node().input_at(index).unwrap().len(),
        ensures
            r is Some <==> self.buffer_node().input_at(index) is Some,
            r is Some ==> r.unwrap()@ == window(self.buffer_node().input_at(index).unwrap(), self.window_start(), self.window_len()),
    {
        self.get_input_shared(index)
    }

    /// The window of the buffer of output port `index`.
    pub fn get_output_shared(&self, index: usize) -> (r: Option<&[T]>)
        requires
            self.buffer_node().wf(),
            self.buffer_node().output_at(index) is Some ==> self.window_start() + self.window_len()
                <= self.buffer_node().output_at(index).unwrap().len(),
        ensures
            r is Some <==> self.buffer_node().output_at(index) is Some,
            r is Some ==> r.unwrap()@ == window(self.buffer_node().output_at(index).unwrap(), self.window_start(), self.window_len()),
    {
        match self.node.get_output_shared(index) {
            Some(buf) => Some(window_of(buf, self.start, self.len)),
            None => None,
        }
    }

    /// The window of the buffer of output port `index`, for writing.
    pub fn get_output(&mut self, index: usize) -> (r: Option<&mut [T]>)
        requires
            old(self).buffer_node().wf(),
            old(self).buffer_node().output_at(index) is Some ==> old(self).window_start() + old(self).window_len()
                <= old(self).buffer_node().output_at(index).unwrap().len(),
        ensures
            r is Some <==> old(self).buffer_node().output_at(index) is Some,
            r is Some ==> {
                let buf = old(self).buffer_node().output_at(index).unwrap();
                &&& r.unwrap()@ == window(buf, old(self).window_start(), old(self).window_len())
                &&& final(self).window_start() == old(self).window_start()
                &&& final(self).window_len() == old(self).window_len()
                &&& old(self).buffer_node().output_at_updated(final(self).buffer_node(), index,
                    splice(buf, old(self).window_start(), old(self).window_len(), final(r.unwrap())@))
            },
    {
        let start = self.start;
        let len = self.len;
        match self.node.get_output(index) {
            Some(buf) => Some(window_of_mut(buf, start, len)),
            None => None,
        }
    }
}

} // verus!
