use vstd::prelude::*;
use vstd::string::StringExecFns;

use crate::text::push_char;

verus! {

/// The generated program, held in two regions until it is written out:
/// declarations (the header) and statements (the body).
pub struct Emitter {
    full_path: String,
    header: String,
    code: String,
}

impl Emitter {
    /// The declarations written so far.
    pub closed spec fn header_text(&self) -> Seq<char> {
        self.header@
    }

    /// The statements written so far.
    pub closed spec fn body_text(&self) -> Seq<char> {
        self.code@
    }

    /// Where the finished program is to be written.
    pub closed spec fn path_text(&self) -> Seq<char> {
        self.full_path@
    }

    /// An emitter with both regions empty.
    pub fn new(full_path: String) -> (r: Self)
        ensures
            r.header_text() == Seq::<char>::empty(),
            r.body_text() == Seq::<char>::empty(),
            r.path_text() == full_path@,
    {
        Emitter { full_path, header: String::new(), code: String::new() }
    }

    /// Appends `code` to the body.
    pub fn emit(&mut self, code: &str)
        ensures
            final(self).body_text() == old(self).body_text() + code@,
            final(self).header_text() == old(self).header_text(),
            final(self).path_text() == old(self).path_text(),
    {
        self.code.append(code);
    }

    /// Appends `code` and a line break to the body.
    pub fn emit_line(&mut self, code: &str)
        ensures
            final(self).body_text() == (old(self).body_text() + code@).push('\n'),
            final(self).header_text() == old(self).header_text(),
            final(self).path_text() == old(self).path_text(),
    {
        self.emit(code);
        push_char(&mut self.code, '\n');
    }

    /// Appends `code` and a line break to the header.
    pub fn header_line(&mut self, code: &str)
        ensures
            final(self).header_text() == (old(self).header_text() + code@).push('\n'),
            final(self).body_text() == old(self).body_text(),
            final(self).path_text() == old(self).path_text(),
    {
        self.header.append(code);
        push_char(&mut self.header, '\n');
    }

    /// The finished program: the header followed by the body.
    pub fn output(&self) -> (r: String)
        ensures
            r@ == self.header_text() + self.body_text(),
    {
        let mut s = String::new();
        s.append(self.header.as_str());
        s.append(self.code.as_str());
        s
    }

    /// The path that the finished program is to be written to.
    pub fn path(&self) -> (r: &str)
        ensures
            r@ == self.path_text(),
    {
        self.full_path.as_str()
    }
}

} // verus!
