//! The character I/O capability the machine consumes, and a scripted implementation of it.
use crate::error::{LC3Error, LC3Result};
use vstd::prelude::*;

verus! {

/// Character input and output and a keyboard poll. What a port returns is up to it; a
/// scripted port (`scripted`) answers from its script and records what is written, and
/// then the calls do what the `ensures` below say.
pub trait IOHandle {
    /// Whether the port answers from a script and records its output.
    open spec fn scripted(&self) -> bool {
        false
    }

    /// For a scripted port: the keys still to be read, the next one last.
    open spec fn pending_keys(&self) -> Seq<char> {
        Seq::empty()
    }

    /// For a scripted port: the key-down answers still to be given, the next one last.
    open spec fn pending_keydowns(&self) -> Seq<bool> {
        Seq::empty()
    }

    /// For a scripted port: the characters written so far, in order.
    open spec fn written(&self) -> Seq<char> {
        Seq::empty()
    }

    /// For a scripted port: the prompts shown so far, in order.
    open spec fn prompts(&self) -> Seq<Seq<char>> {
        Seq::empty()
    }

    /// Blocks until one printable key is pressed and returns it.
    fn getchar(&mut self) -> (r: LC3Result<char>)
        ensures
            final(self).scripted() == old(self).scripted(),
            old(self).scripted() ==> {
                &&& final(self).prompts() == old(self).prompts()
                &&& final(self).written() == old(self).written()
                &&& final(self).pending_keydowns() == old(self).pending_keydowns()
                &&& old(self).pending_keys().len() > 0 ==> r == Ok::<char, LC3Error>(
                    old(self).pending_keys().last(),
                ) && final(self).pending_keys() == old(self).pending_keys().drop_last()
                &&& old(self).pending_keys().len() == 0 ==> r is Err && final(self).pending_keys()
                    == old(self).pending_keys()
            },
    ;

    /// Writes one character to the character sink and flushes it.
    fn putchar(&mut self, ch: char) -> (r: LC3Result<()>)
        ensures
            final(self).scripted() == old(self).scripted(),
            old(self).scripted() ==> {
                &&& r is Ok
                &&& final(self).prompts() == old(self).prompts()
                &&& final(self).written() == old(self).written().push(ch)
                &&& final(self).pending_keys() == old(self).pending_keys()
                &&& final(self).pending_keydowns() == old(self).pending_keydowns()
            },
    ;

    /// Whether a key is held down right now.
    fn is_key_down(&mut self) -> (r: LC3Result<bool>)
        ensures
            final(self).scripted() == old(self).scripted(),
            old(self).scripted() ==> {
                &&& final(self).prompts() == old(self).prompts()
                &&& final(self).written() == old(self).written()
                &&& final(self).pending_keys() == old(self).pending_keys()
                &&& old(self).pending_keydowns().len() > 0 ==> r == Ok::<bool, LC3Error>(
                    old(self).pending_keydowns().last(),
                ) && final(self).pending_keydowns() == old(self).pending_keydowns().drop_last()
                &&& old(self).pending_keydowns().len() == 0 ==> r is Err
                    && final(self).pending_keydowns() == old(self).pending_keydowns()
            },
    ;

    /// Shows a prompt on the character sink. It is no character output of the program.
    fn prompt(&mut self, text: &str) -> (r: LC3Result<()>)
        ensures
            final(self).scripted() == old(self).scripted(),
            old(self).scripted() ==> {
                &&& r is Ok
                &&& final(self).prompts() == old(self).prompts().push(text@)
                &&& final(self).written() == old(self).written()
                &&& final(self).pending_keys() == old(self).pending_keys()
                &&& final(self).pending_keydowns() == old(self).pending_keydowns()
            },
    ;
}

/// A deterministic capability: it answers from scripted key presses and key-down polls
/// (the last one added first) and records every character written.
pub struct TestIOHandle {
    key_presses: Vec<char>,
    outputs: Vec<char>,
    keydown_values: Vec<bool>,
    prompts: Vec<String>,
}

impl TestIOHandle {
    pub fn new() -> (r: Self)
        ensures
            r.scripted(),
            r.prompts() == Seq::<Seq<char>>::empty(),
            r.pending_keys() == Seq::<char>::empty(),
            r.written() == Seq::<char>::empty(),
            r.pending_keydowns() == Seq::<bool>::empty(),
    {
        Self {
            key_presses: Vec::new(),
            outputs: Vec::new(),
            keydown_values: Vec::new(),
            prompts: Vec::new(),
        }
    }

    /// Adds a key press, to be read before the ones added earlier.
    pub fn add_key_press(&mut self, ch: char)
        ensures
            final(self).pending_keys() == old(self).pending_keys().push(ch),
            final(self).prompts() == old(self).prompts(),
            final(self).written() == old(self).written(),
            final(self).pending_keydowns() == old(self).pending_keydowns(),
    {
        self.key_presses.push(ch);
    }

    /// Adds a key-down answer, to be given before the ones added earlier.
    pub fn add_keydown_response(&mut self, val: bool)
        ensures
            final(self).pending_keys() == old(self).pending_keys(),
            final(self).written() == old(self).written(),
            final(self).pending_keydowns() == old(self).pending_keydowns().push(val),
            final(self).prompts() == old(self).prompts(),
    {
        self.keydown_values.push(val);
    }

    /// How many prompts were shown.
    pub fn prompt_count(&self) -> (r: usize)
        ensures
            r == self.prompts().len(),
    {
        self.prompts.len()
    }

    /// The characters written so far.
    pub fn get_test_outputs(&self) -> (r: Vec<char>)
        ensures
            r@ == self.written(),
    {
        let mut out: Vec<char> = Vec::new();
        let mut i: usize = 0;
        while i < self.outputs.len()
            invariant
                i <= self.outputs@.len(),
                out@ == self.outputs@.subrange(0, i as int),
            decreases self.outputs@.len() - i,
        {
            out.push(self.outputs[i]);
            i += 1;
            assert(out@ =~= self.outputs@.subrange(0, i as int));
        }
        assert(out@ =~= self.outputs@);
        out
    }
}

impl IOHandle for TestIOHandle {
    open spec fn scripted(&self) -> bool {
        true
    }

    closed spec fn pending_keys(&self) -> Seq<char> {
        self.key_presses@
    }

    closed spec fn pending_keydowns(&self) -> Seq<bool> {
        self.keydown_values@
    }

    closed spec fn written(&self) -> Seq<char> {
        self.outputs@
    }

    closed spec fn prompts(&self) -> Seq<Seq<char>> {
        self.prompts@.map_values(|p: String| p@)
    }

    fn getchar(&mut self) -> (r: LC3Result<char>) {
        match self.key_presses.pop() {
            Some(ch) => Ok(ch),
            None => Err(
                LC3Error::Other("Attempted to call getchar on empty key presses vector".to_string()),
            ),
        }
    }

    fn putchar(&mut self, ch: char) -> (r: LC3Result<()>) {
        self.outputs.push(ch);
        Ok(())
    }

    fn is_key_down(&mut self) -> (r: LC3Result<bool>) {
        match self.keydown_values.pop() {
            Some(v) => Ok(v),
            None => Err(
                LC3Error::Other("Attempted to call is_key_down on empty key down vector".to_string()),
            ),
        }
    }

    fn prompt(&mut self, text: &str) -> (r: LC3Result<()>) {
        let ghost before = self.prompts@;
        self.prompts.push(text.to_owned());
        assert(self.prompts@.map_values(|p: String| p@) =~= before.map_values(|p: String| p@).push(
            text@,
        ));
        Ok(())
    }
}

} // verus!
