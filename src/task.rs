//! The completion cell that a task shares with its join handle.
use vstd::prelude::*;

verus! {

/// Why a join handle yields no value.
#[derive(Clone, Copy, Debug, PartialEq, Eq, Structural)]
pub struct JoinError {}

impl JoinError {
    /// The error's text.
    pub fn message(&self) -> (r: &'static str)
        ensures
            r@ == "JoinError"@,
    {
        "JoinError"
    }
}

/// The completion cell, as the contracts see it.
pub struct JoinView<T, W> {
    /// The task the cell belongs to.
    pub id: u64,
    /// The value, once produced and until taken.
    pub result: Option<T>,
    /// The waker of the last task that awaited the handle.
    pub waker: Option<W>,
    /// Whether a value was ever stored.
    pub filled: bool,
}

/// Holds the value a task produces until its join handle takes it, and the
/// waker of whoever awaits it.
pub struct JoinCell<T, W> {
    id: u64,
    result: Option<T>,
    waker: Option<W>,
    filled: bool,
}

impl<T, W> View for JoinCell<T, W> {
    type V = JoinView<T, W>;

    closed spec fn view(&self) -> JoinView<T, W> {
        JoinView { id: self.id, result: self.result, waker: self.waker, filled: self.filled }
    }
}

impl<T, W> JoinCell<T, W> {
    /// An empty cell for task `id`.
    pub fn new(id: u64) -> (r: JoinCell<T, W>)
        ensures
            r@ == (JoinView::<T, W> { id, result: None, waker: None, filled: false }),
    {
        JoinCell { id, result: None, waker: None, filled: false }
    }

    /// The task the cell belongs to.
    pub fn id(&self) -> (r: u64)
        ensures
            r == self@.id,
    {
        self.id
    }

    /// Whether a value was ever stored.
    pub fn is_filled(&self) -> (r: bool)
        ensures
            r == self@.filled,
    {
        self.filled
    }

    /// Store the value the task produced: the one move from empty to filled.
    /// The waker of the awaiting task, if any, is handed back to be woken.
    pub fn set_result(&mut self, value: T) -> (r: Option<W>)
        requires
            !old(self)@.filled,
        ensures
            r == old(self)@.waker,
            final(self)@ == (JoinView::<T, W> {
                result: Some(value),
                waker: None,
                filled: true,
                ..old(self)@
            }),
    {
        self.result = Some(value);
        self.filled = true;
        self.waker.take()
    }

    /// One poll of the join handle: the value if it is there (it is taken
    /// out), else `waker` is stored, in place of an older one.
    pub fn poll(&mut self, waker: W) -> (r: Option<T>)
        ensures
            r == old(self)@.result,
            final(self)@.filled == old(self)@.filled,
            final(self)@.id == old(self)@.id,
            final(self)@.result is None,
            old(self)@.result is Some ==> final(self)@.waker == old(self)@.waker,
            old(self)@.result is None ==> final(self)@.waker == Some(waker),
    {
        match self.result.take() {
            Some(v) => Some(v),
            None => {
                self.waker = Some(waker);
                None
            },
        }
    }

    /// Take the value out, if it is there.
    pub fn get_result(&mut self) -> (r: Option<T>)
        ensures
            r == old(self)@.result,
            final(self)@ == (JoinView::<T, W> { result: None, ..old(self)@ }),
    {
        self.result.take()
    }
}

} // verus!
