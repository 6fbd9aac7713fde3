//! A bounded call stack of return addresses.

use vstd::prelude::*;

verus! {

/// A fixed-capacity stack: 64 bytes of storage and a cursor one past the
/// topmost element.
pub struct Stack {
    pub stack: [u8; 64],
    pub top: usize,
}

impl Stack {
    /// The cursor never leaves the storage.
    pub open spec fn wf(&self) -> bool {
        self.top <= 64
    }

    /// The stack's elements, bottom first.
    pub open spec fn contents(&self) -> Seq<u8> {
        self.stack@.take(self.top as int)
    }

    /// An empty stack.
    pub fn create_stack() -> (r: Self)
        ensures
            r.wf(),
            r.top == 0,
            r.contents() == Seq::<u8>::empty(),
    {
        let r = Self { stack: [0; 64], top: 0 };
        proof {
            assert(r.contents() =~= Seq::<u8>::empty());
        }
        r
    }

    /// Pushes `elm` on top; fails exactly when the stack is full, leaving it
    /// unchanged.
    pub fn stack_push(&mut self, elm: u8) -> (r: Result<(), &'static str>)
        requires
            old(self).wf(),
        ensures
            final(self).wf(),
            r is Ok <==> old(self).top < 64,
            r is Err ==> *final(self) == *old(self),
            r is Ok ==> final(self).top == old(self).top + 1 && final(self).contents() == old(
                self,
            ).contents().push(elm),
    {
        if self.top == self.stack.len() {
            return Err("Error: Stack overflow!");
        }
        self.stack[self.top] = elm;
        self.top = self.top + 1;
        proof {
            assert(self.contents() =~= old(self).contents().push(elm));
        }
        Ok(())
    }

    /// Pops the topmost element; fails exactly when the stack is empty,
    /// leaving it unchanged.
    pub fn stack_pop(&mut self) -> (r: Result<u8, &'static str>)
        requires
            old(self).wf(),
        ensures
            final(self).wf(),
            r is Ok <==> old(self).top > 0,
            r is Err ==> *final(self) == *old(self),
            r is Ok ==> final(self).top == old(self).top - 1 && r->Ok_0 == old(
                self,
            ).contents().last() && final(self).contents() == old(self).contents().drop_last(),
    {
        if self.top == 0 {
            return Err("Error: Tried to pop from an empty stack.");
        }
        self.top = self.top - 1;
        proof {
            assert(self.contents() =~= old(self).contents().drop_last());
        }
        Ok(self.stack[self.top])
    }
}

} // verus!
