//! Splitting a byte stream into lines, as the line printer reads it chunk by chunk.

use crate::text::{
    find_byte, find_byte_in, lemma_find_byte, lemma_valid_drop_ascii, lemma_valid_split_at_ascii,
    str_from_utf8,
};
use vstd::prelude::*;
use vstd::string::StringExecFns;
use vstd::utf8::*;

verus! {

/// What a chunk of the stream gave.
pub enum LineEvent {
    /// The chunk is not well-formed UTF-8; it was skipped.
    NotUtf8,
    /// The chunk held a '\n': this line is complete.
    Line(String),
    /// The chunk held no '\n': the line goes on.
    Partial,
}

/// Collects the text of the current line across chunks.
pub struct LineSplitter {
    one_line: String,
}

impl View for LineSplitter {
    /// The text of the current, incomplete line.
    type V = Seq<char>;

    closed spec fn view(&self) -> Seq<char> {
        self.one_line@
    }
}

impl LineSplitter {
    pub fn new() -> (r: Self)
        ensures
            r@ == Seq::<char>::empty(),
    {
        LineSplitter { one_line: String::new() }
    }

    /// Takes the next chunk. Only the first '\n' of a chunk ends a line: the rest of
    /// the chunk, later '\n' included, starts the next line.
    pub fn feed(&mut self, chunk: &[u8]) -> (r: LineEvent)
        ensures
            match r {
                LineEvent::NotUtf8 => !valid_utf8(chunk@) && final(self)@ == old(self)@,
                LineEvent::Line(line) => valid_utf8(chunk@) && ({
                    let i = find_byte(chunk@, 10u8)->0;
                    &&& find_byte(chunk@, 10u8) is Some
                    &&& line@ == old(self)@ + decode_utf8(chunk@.take(i))
                    &&& final(self)@ == decode_utf8(chunk@.skip(i + 1))
                }),
                LineEvent::Partial => valid_utf8(chunk@) && find_byte(chunk@, 10u8) is None
                    && final(self)@ == old(self)@ + decode_utf8(chunk@),
            },
    {
        let text = match str_from_utf8(chunk) {
            Ok(t) => t,
            Err(_) => {
                return LineEvent::NotUtf8;
            },
        };
        let len = chunk.len();
        assert(chunk@.subrange(0, len as int) =~= chunk@);
        match find_byte_in(chunk, 0, len, 10u8) {
            Some(i) => {
                proof {
                    lemma_find_byte(chunk@, 10u8);
                    lemma_valid_split_at_ascii(chunk@, i as int);
                    lemma_valid_drop_ascii(chunk@.skip(i as int));
                    assert(chunk@.skip(i as int).skip(1) =~= chunk@.skip(i + 1));
                    assert(chunk@.subrange(0, i as int) =~= chunk@.take(i as int));
                    assert(chunk@.subrange(i + 1, len as int) =~= chunk@.skip(i + 1));
                }
                let mut line = self.one_line.clone();
                if i != 0 {
                    let head = str_from_utf8(&chunk[0..i]).unwrap();
                    line.append(head);
                } else {
                    assert(chunk@.take(0) =~= Seq::<u8>::empty());
                    assert(decode_utf8(Seq::<u8>::empty()) =~= Seq::<char>::empty());
                    assert(line@ =~= old(self)@ + decode_utf8(chunk@.take(0)));
                }
                let tail = str_from_utf8(&chunk[i + 1..len]).unwrap();
                self.one_line = tail.to_owned();
                LineEvent::Line(line)
            },
            None => {
                self.one_line.append(text);
                LineEvent::Partial
            },
        }
    }

    /// The end of the stream: the current line, unless it is empty.
    pub fn finish(self) -> (r: Option<String>)
        ensures
            match r {
                Some(line) => self@.len() > 0 && line@ == self@,
                None => self@.len() == 0,
            },
    {
        if self.one_line.as_str().unicode_len() > 0 {
            Some(self.one_line)
        } else {
            None
        }
    }
}

} // verus!
