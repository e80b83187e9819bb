use vstd::prelude::*;

verus! {

/// Byte returned for every read once the input has ended.
pub const EOF_OUTPUT: u8 = 0;

/// The byte source behind the interpreters' reads: bytes of whole lines as the terminal
/// hands them over, a newline as byte 10, and zero for ever after the input ends. The
/// host reads a line whenever `next_byte` asks for one and passes it to `feed_line`.
pub struct StdIn {
    eof: bool,
    input_buffer: Vec<u8>,
    head: usize,
}

impl StdIn {
    pub closed spec fn wf(&self) -> bool {
        self.head <= self.input_buffer@.len()
    }

    /// The bytes received and not yet handed out.
    pub closed spec fn pending(&self) -> Seq<u8> {
        self.input_buffer@.subrange(self.head as int, self.input_buffer@.len() as int)
    }

    /// Whether the input has ended.
    pub closed spec fn at_eof(&self) -> bool {
        self.eof
    }

    pub fn new() -> (r: Self)
        ensures
            r.wf(),
            r.pending() == Seq::<u8>::empty(),
            !r.at_eof(),
    {
        let r = StdIn { eof: false, input_buffer: Vec::new(), head: 0 };
        assert(r.pending() =~= Seq::<u8>::empty());
        r
    }

    /// The next input byte: zero once the input has ended, else the oldest byte received,
    /// or `None` where a line has to be read first.
    pub fn next_byte(&mut self) -> (r: Option<u8>)
        requires
            old(self).wf(),
        ensures
            final(self).wf(),
            final(self).at_eof() == old(self).at_eof(),
            old(self).at_eof() ==> r == Some(EOF_OUTPUT) && final(self).pending() == old(self).pending(),
            !old(self).at_eof() && old(self).pending().len() > 0 ==> r == Some(
                old(self).pending()[0],
            ) && final(self).pending() == old(self).pending().drop_first(),
            !old(self).at_eof() && old(self).pending().len() == 0 ==> r is None
                && final(self).pending() == old(self).pending(),
    {
        if self.eof {
            return Some(EOF_OUTPUT);
        }
        if self.head < self.input_buffer.len() {
            let b = self.input_buffer[self.head];
            self.head = self.head + 1;
            assert(self.pending() =~= old(self).pending().drop_first());
            Some(b)
        } else {
            None
        }
    }

    /// Takes the bytes of one line read from the terminal, its newline included; an empty
    /// line means the input has ended.
    pub fn feed_line(&mut self, line: &[u8])
        requires
            old(self).wf(),
        ensures
            final(self).wf(),
            line@.len() == 0 ==> final(self).at_eof() && final(self).pending() == old(self).pending(),
            line@.len() > 0 ==> !final(self).at_eof() == !old(self).at_eof() && final(self).pending() == old(self).pending() + line@,
    {
        if line.len() == 0 {
            self.eof = true;
            return;
        }
        if self.head == self.input_buffer.len() {
            self.input_buffer = Vec::new();
            self.head = 0;
            assert(self.pending() =~= old(self).pending());
        }
        let ghost before = self.pending();
        let mut i: usize = 0;
        while i < line.len()
            invariant
                self.wf(),
                i <= line@.len(),
                self.pending() == before + line@.subrange(0, i as int),
                self.eof == old(self).eof,
            decreases line@.len() - i,
        {
            let ghost pend = self.pending();
            let ghost buf = self.input_buffer@;
            self.input_buffer.push(line[i]);
            assert(self.input_buffer@.subrange(self.head as int, self.input_buffer@.len() as int)
                =~= buf.subrange(self.head as int, buf.len() as int).push(line@[i as int]));
            assert(line@.subrange(0, i + 1) =~= line@.subrange(0, i as int).push(line@[i as int]));
            i = i + 1;
            assert(self.pending() =~= before + line@.subrange(0, i as int));
        }
        assert(line@.subrange(0, i as int) =~= line@);
    }
}

} // verus!
