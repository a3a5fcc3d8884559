//! Static and dynamic dispatch over values that can be read as text.

use vstd::prelude::*;
use vstd::string::*;

verus! {

/// Something that can be read as text.
pub trait Text {
    /// The text, as characters.
    spec fn text(&self) -> Seq<char>;

    /// The text.
    fn as_text(&self) -> (r: &str)
        ensures
            r@ == self.text(),
    ;
}

impl<'a> Text for &'a str {
    open spec fn text(&self) -> Seq<char> {
        (*self)@
    }

    fn as_text(&self) -> (r: &str) {
        *self
    }
}

impl Text for String {
    open spec fn text(&self) -> Seq<char> {
        self@
    }

    fn as_text(&self) -> (r: &str) {
        self.as_str()
    }
}

/// The length of a text in bytes: the length of its UTF-8 encoding.
pub open spec fn byte_length(text: Seq<char>) -> nat {
    vstd::utf8::encode_utf8(text).len()
}

/// The length of a text in bytes.
fn byte_len(text: &str) -> (n: usize)
    ensures
        n == byte_length(text@),
{
    let bytes = text.as_bytes();
    assert(bytes@.len() == bytes.len());
    text.len()
}

/// The length in bytes of a text, the argument given as `impl Trait`.
pub fn strlen(s: impl Text) -> (n: usize)
    ensures
        n == byte_length(s.text()),
{
    byte_len(s.as_text())
}

/// The length in bytes of a text, the bound given in a `where` clause.
pub fn strlen2<S>(s: S) -> (n: usize) where S: Text
    ensures
        n == byte_length(s.text()),
{
    byte_len(s.as_text())
}

/// The length in bytes of a text, the bound given with the parameter.
pub fn strlen3<S: Text>(s: S) -> (n: usize)
    ensures
        n == byte_length(s.text()),
{
    byte_len(s.as_text())
}

/// The length in bytes of a text behind an owning trait object.
pub fn strlen_dyn(s: Box<dyn Text>) -> (n: usize)
    ensures
        n == byte_length(s.text()),
{
    byte_len(s.as_text())
}

/// The length in bytes of a text behind a borrowed trait object.
pub fn strlen_dyn2(s: &dyn Text) -> (n: usize)
    ensures
        n == byte_length(s.text()),
{
    byte_len(s.as_text())
}

/// Something that can greet.
pub trait Hei {
    /// The words of the greeting.
    spec fn greeting(&self) -> Seq<char>;

    /// The greeting.
    fn hei(&self) -> (r: String)
        ensures
            r@ == self.greeting(),
    ;

    /// Not callable through a trait object: it asks for a sized receiver.
    fn weird(&self) where Self: Sized {
    }
}

/// The greeting for a name.
pub open spec fn hei_to(name: Seq<char>) -> Seq<char> {
    "Hei "@ + name
}

impl<'a> Hei for &'a str {
    open spec fn greeting(&self) -> Seq<char> {
        hei_to((*self)@)
    }

    fn hei(&self) -> (r: String) {
        String::from_str("Hei ").concat(*self)
    }
}

impl Hei for String {
    open spec fn greeting(&self) -> Seq<char> {
        hei_to(self@)
    }

    fn hei(&self) -> (r: String) {
        String::from_str("Hei ").concat(self.as_str())
    }
}

/// The greeting of `s`, chosen at compile time.
pub fn say_hei_static<H: Hei>(s: H) -> (r: String)
    ensures
        r@ == s.greeting(),
{
    s.hei()
}

/// The greeting of `s`, chosen at run time.
pub fn say_hei(s: &dyn Hei) -> (r: String)
    ensures
        r@ == s.greeting(),
{
    s.hei()
}

/// Something that can greet and be read as text.
pub trait HeiAsRef: Hei + Text {
}

impl<'a> HeiAsRef for &'a str {
}

impl HeiAsRef for String {
}

/// The greeting of `s` and the length in bytes of its text.
pub fn baz<S: HeiAsRef + ?Sized>(s: &S) -> (r: (String, usize))
    ensures
        r.0@ == s.greeting(),
        r.1 == byte_length(s.text()),
{
    let greeting = s.hei();
    let s = s.as_text();
    (greeting, byte_len(s))
}

} // verus!
