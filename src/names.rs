use vstd::prelude::*;

use crate::error::{IdxError, IdxResult};

verus! {

/// A control code: Unicode general category Cc, which is exactly
/// U+0000..=U+001F and U+007F..=U+009F.
pub open spec fn is_control_code(c: char) -> bool {
    (c as u32) <= 0x1f || (0x7f <= (c as u32) && (c as u32) <= 0x9f)
}

/// A character that may stand in an object name: no path separator and no
/// control code, so that a name can be joined under a storage root.
pub open spec fn is_name_char(c: char) -> bool {
    c != '/' && c != '\\' && !is_control_code(c)
}

/// Every character of `s` may stand in an object name.
pub open spec fn is_valid_name(s: Seq<char>) -> bool {
    forall|i: int| 0 <= i < s.len() ==> is_name_char(#[trigger] s[i])
}

/// A validated, borrowed, storage-relative object name.
#[derive(Clone, Copy, Debug, PartialEq)]
pub struct ObjectName<'a> {
    name: &'a str,
}

impl<'a> View for ObjectName<'a> {
    type V = Seq<char>;

    closed spec fn view(&self) -> Seq<char> {
        self.name@
    }
}

/// An owned copy of a validated object name, able to outlive the text it
/// was made from.
#[derive(Clone, Debug)]
pub struct ObjectNameBuf {
    name: String,
}

impl View for ObjectNameBuf {
    type V = Seq<char>;

    closed spec fn view(&self) -> Seq<char> {
        self.name@
    }
}

fn is_control(c: char) -> (r: bool)
    ensures
        r == is_control_code(c),
{
    let u = c as u32;
    u <= 0x1f || (0x7f <= u && u <= 0x9f)
}

impl<'a> ObjectName<'a> {
    /// Wraps `name` after checking that it holds no path separator and no
    /// control code.
    pub fn new(name: &'a str) -> (r: IdxResult<Self>)
        ensures
            r is Ok <==> is_valid_name(name@),
            r matches Ok(n) ==> n@ == name@,
            r matches Err(e) ==> e is StorageError,
    {
        if Self::is_valid_object_name(name) {
            Ok(Self { name: name })
        } else {
            let msg = String::from_str("The name given is not a valid object name: '");
            let msg = msg.concat(name).concat("'");
            Err(IdxError::storage_error_msg(msg))
        }
    }

    /// The empty name, which stands for the root of a store.
    pub fn empty() -> (r: Self)
        ensures
            r@ == Seq::<char>::empty(),
    {
        let name = "";
        proof {
            reveal_strlit("");
        }
        Self { name: name }
    }

    fn is_valid_object_name(name: &str) -> (r: bool)
        ensures
            r == is_valid_name(name@),
    {
        let mut ok = true;
        for c in it: name.chars()
            invariant
                it.seq() == name@,
                ok == (forall|i: int| 0 <= i < it.index() ==> is_name_char(#[trigger] name@[i])),
        {
            ok = ok && c != '/' && c != '\\' && !is_control(c);
        }
        ok
    }

    /// The name's text.
    pub fn as_str(&self) -> (r: &'a str)
        ensures
            r@ == self@,
    {
        self.name
    }

    /// The name's text; the same as `as_str`.
    pub fn name(&self) -> (r: &'a str)
        ensures
            r@ == self@,
    {
        self.name
    }
}

impl ObjectNameBuf {
    /// The owned empty name.
    pub fn new() -> (r: Self)
        ensures
            r@ == Seq::<char>::empty(),
    {
        Self { name: String::new() }
    }

    /// Validates `name` as `ObjectName::new` does and takes a copy of it.
    pub fn from_str(name: &str) -> (r: IdxResult<Self>)
        ensures
            r is Ok <==> is_valid_name(name@),
            r matches Ok(n) ==> n@ == name@,
            r matches Err(e) ==> e is StorageError,
    {
        let ptr = ObjectName::new(name)?;
        let s = ptr.as_str().to_string();
        Ok(Self { name: s })
    }

    /// A copy of this name.
    pub(crate) fn copy(&self) -> (r: Self)
        ensures
            r@ == self@,
    {
        Self { name: self.name.clone() }
    }

    /// A borrowed view of this name.
    pub fn name<'a>(&'a self) -> (r: ObjectName<'a>)
        ensures
            r@ == self@,
    {
        ObjectName { name: self.name.as_str() }
    }
}

/// Validating a name into an owned copy, viewing the copy as a borrowed
/// name and reading its text back gives the text one started from.
pub proof fn lemma_name_round_trip(
    s: &str,
    owned: IdxResult<ObjectNameBuf>,
    buf: &ObjectNameBuf,
    view: ObjectName,
    text: &str,
)
    requires
        is_valid_name(s@),
        call_ensures(ObjectNameBuf::from_str, (s,), owned),
        owned matches Ok(b) ==> b == *buf,
        call_ensures(ObjectNameBuf::name, (buf,), view),
        call_ensures(ObjectName::as_str, (&view,), text),
    ensures
        owned is Ok,
        text@ == s@,
{
}

} // verus!
