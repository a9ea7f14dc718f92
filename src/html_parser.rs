use vstd::prelude::*;

verus! {

/// A forward-only cursor over a text buffer, indexed by character.
#[derive(Debug, PartialEq)]
pub struct Parser {
    pos: usize,
    input: String,
}

impl Parser {
    /// The characters of the buffer.
    pub closed spec fn text(&self) -> Seq<char> {
        self.input@
    }

    /// The cursor's offset, in characters.
    pub closed spec fn offset(&self) -> nat {
        self.pos as nat
    }

    /// The unconsumed rest of the buffer.
    pub open spec fn remaining(&self) -> Seq<char> {
        if self.offset() < self.text().len() {
            self.text().subrange(self.offset() as int, self.text().len() as int)
        } else {
            Seq::<char>::empty()
        }
    }

    /// The unconsumed rest of the buffer begins with `s`.
    pub open spec fn has_prefix(&self, s: Seq<char>) -> bool {
        s.len() <= self.remaining().len() && self.remaining().take(s.len() as int) == s
    }

    /// True when no character is left under the cursor.
    pub open spec fn at_end(&self) -> bool {
        self.offset() >= self.text().len()
    }

    /// The character under the cursor, if any.
    pub open spec fn char_here(&self) -> Option<char> {
        if self.at_end() {
            None
        } else {
            Some(self.text()[self.offset() as int])
        }
    }

    /// `later` scans the same buffer, no further back than `self`, and once
    /// `self` has reached the end, so has `later`.
    pub open spec fn advances_to(&self, later: &Parser) -> bool {
        &&& later.text() == self.text()
        &&& self.offset() <= later.offset()
        &&& self.at_end() ==> later.at_end()
    }

    pub fn new(input: String) -> (r: Self)
        ensures
            r.text() == input@,
            r.offset() == 0,
    {
        Self { input, pos: 0 }
    }

    /// A cursor over `input` that starts at character `pos`; a position at or
    /// past the end stands for an exhausted cursor.
    pub fn with_position(input: String, pos: usize) -> (r: Self)
        ensures
            r.text() == input@,
            r.offset() == pos,
    {
        Self { input, pos }
    }

    /// The cursor's offset, in characters.
    pub fn position(&self) -> (r: usize)
        ensures
            r == self.offset(),
    {
        self.pos
    }

    /// Read the current character at the position of the parser without consuming it.
    pub fn current_char(&self) -> (r: Option<char>)
        ensures
            r == self.char_here(),
    {
        if self.pos < self.input.as_str().unicode_len() {
            Some(self.input.as_str().get_char(self.pos))
        } else {
            None
        }
    }

    /// Returns true if the characters from the parser position on begin with `s`.
    pub fn starts_with(&self, s: &str) -> (r: bool)
        ensures
            r == self.has_prefix(s@),
    {
        let n = s.unicode_len();
        let len = self.input.as_str().unicode_len();
        if self.pos >= len {
            assert(n == 0 ==> self.remaining().take(0) =~= s@);
            return n == 0;
        }
        if n > len - self.pos {
            return false;
        }
        let mut i: usize = 0;
        while i < n
            invariant
                i <= n,
                n == s@.len(),
                len == self.text().len(),
                self.pos < len,
                n <= len - self.pos,
                forall|j: int| 0 <= j < i ==> self.text()[self.pos + j] == s@[j],
            decreases n - i,
        {
            if self.input.as_str().get_char(self.pos + i) != s.get_char(i) {
                assert(self.remaining().take(n as int)[i as int] != s@[i as int]);
                return false;
            }
            i += 1;
        }
        assert(self.remaining().take(n as int) =~= s@);
        true
    }

    /// Returns true if all input is consumed.
    pub fn eof(&self) -> (r: bool)
        ensures
            r == self.at_end(),
    {
        self.current_char().is_none()
    }

    /// Return the current character, and advance the position to the next character.
    /// Past the end the position still moves on, up to `usize::MAX`, where it stays.
    pub fn consume_char(&mut self) -> (r: Option<char>)
        ensures
            r == old(self).char_here(),
            final(self).text() == old(self).text(),
            final(self).offset() == (if old(self).offset() < usize::MAX {
                old(self).offset() + 1
            } else {
                old(self).offset()
            }),
            old(self).advances_to(final(self)),
    {
        let cur_char = self.current_char();
        if self.pos < usize::MAX {
            self.pos = self.pos + 1;
        }
        cur_char
    }

    /// Consume characters while `test` accepts them, and return them.
    pub fn consume_while<F>(&mut self, test: F) -> (r: String) where F: Fn(char) -> bool
        requires
            forall|c: char| test.requires((c,)),
        ensures
            old(self).advances_to(final(self)),
            old(self).at_end() ==> final(self).offset() == old(self).offset(),
            !old(self).at_end() ==> final(self).offset() <= old(self).text().len(),
            r@ == old(self).remaining().take(final(self).offset() - old(self).offset()),
            forall|i: int|
                old(self).offset() <= i < final(self).offset() ==> test.ensures(
                    (old(self).text()[i],),
                    true,
                ),
            !final(self).at_end() ==> test.ensures((final(self).text()[final(self).offset() as int],), false),
    {
        let len = self.input.as_str().unicode_len();
        let start = self.pos;
        if start >= len {
            return String::new();
        }
        while self.pos < len
            invariant_except_break
                self.pos <= len,
            invariant
                len == self.text().len(),
                self.text() == old(self).text(),
                start == old(self).offset(),
                start <= self.pos <= len,
                forall|c: char| test.requires((c,)),
                forall|i: int| start <= i < self.pos ==> test.ensures((self.text()[i],), true),
            ensures
                self.pos == len || test.ensures((self.text()[self.pos as int],), false),
            decreases len - self.pos,
        {
            let c = self.current_char().unwrap();
            if !test(c) {
                break;
            }
            self.consume_char();
        }
        let run = self.input.as_str().substring_char(start, self.pos);
        String::from_str(run)
    }
}

/// Each step of a run of scanning calls leaves the buffer alone, moves no
/// further back, and stays at the end once there: so does the run as a whole.
pub proof fn lemma_scan_monotone(states: Seq<Parser>)
    requires
        forall|i: int| 0 <= i < states.len() - 1 ==> (#[trigger] states[i]).advances_to(&states[i + 1]),
    ensures
        forall|i: int, j: int|
            #![trigger states[i], states[j]]
            0 <= i <= j < states.len() ==> states[i].advances_to(&states[j]),
    decreases states.len(),
{
    if states.len() > 1 {
        let front = states.drop_last();
        assert forall|i: int| 0 <= i < front.len() - 1 implies (#[trigger] front[i]).advances_to(&front[i + 1]) by {
            assert(front[i] == states[i] && front[i + 1] == states[i + 1]);
        }
        lemma_scan_monotone(front);
        let last = states.len() - 1;
        assert forall|i: int, j: int|
            #![trigger states[i], states[j]]
            0 <= i <= j < states.len() implies states[i].advances_to(&states[j]) by {
            if j < last {
                assert(front[i] == states[i] && front[j] == states[j]);
            } else if i < last {
                assert(front[i] == states[i] && front[last - 1] == states[last - 1]);
                assert(states[i].advances_to(&states[last - 1]));
            }
        }
    }
}

/// The empty string is a prefix of what is left, wherever the cursor stands.
pub proof fn lemma_empty_prefix(p: Parser)
    ensures
        p.has_prefix(Seq::<char>::empty()),
{
    assert(p.remaining().take(0) =~= Seq::<char>::empty());
}

} // verus!
