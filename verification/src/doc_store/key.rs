//! String keys, held inline.

use vstd::prelude::*;
use vstd::utf8::{decode_utf8_encode_utf8, encode_utf8, valid_utf8};

use super::error::SchemaError;
use crate::text::utf8_text;

verus! {

/// Longest string key, in bytes.
pub const MAX_STR_KEY_LEN: usize = 255;

/// A string key of one to [`MAX_STR_KEY_LEN`] bytes.
///
/// The bytes stand in front of the length, with zeros behind them, so that the
/// derived order compares the bytes first and is the order of the strings.
#[derive(Debug, Clone, Copy, PartialEq, Eq, PartialOrd, Ord)]
pub struct StrKey {
    buffer: [u8; MAX_STR_KEY_LEN],
    len: usize,
}

/// What `StrKey::from_bytes` answers, but for the key itself.
pub open spec fn key_error(bytes: Seq<u8>) -> Option<SchemaError> {
    if bytes.len() == 0 {
        Some(SchemaError::EmptyStrKey)
    } else if bytes.len() > MAX_STR_KEY_LEN {
        Some(SchemaError::StrKeyTooLong { len: bytes.len() as usize, max: MAX_STR_KEY_LEN })
    } else if !valid_utf8(bytes) {
        Some(SchemaError::StrKeyNotUtf8)
    } else {
        None
    }
}

impl View for StrKey {
    type V = Seq<u8>;

    closed spec fn view(&self) -> Seq<u8> {
        self.buffer@.take(self.len as int)
    }
}

impl StrKey {
    /// One to [`MAX_STR_KEY_LEN`] bytes of UTF-8, zeros behind them.
    #[verifier::type_invariant]
    pub closed spec fn wf(&self) -> bool {
        &&& 1 <= self.len <= MAX_STR_KEY_LEN
        &&& valid_utf8(self.buffer@.take(self.len as int))
        &&& forall|i: int| self.len <= i < MAX_STR_KEY_LEN ==> #[trigger] self.buffer@[i] == 0
    }

    /// The key with these bytes.
    pub fn from_bytes(bytes: &[u8]) -> (r: Result<StrKey, SchemaError>)
        ensures
            r is Err <==> key_error(bytes@) is Some,
            r is Err ==> Some(r->Err_0) == key_error(bytes@),
            r is Ok ==> r->Ok_0@ == bytes@ && r->Ok_0.wf(),
    {
        if bytes.len() == 0 {
            return Err(SchemaError::EmptyStrKey);
        }
        if bytes.len() > MAX_STR_KEY_LEN {
            return Err(SchemaError::StrKeyTooLong { len: bytes.len(), max: MAX_STR_KEY_LEN });
        }
        if utf8_text(bytes).is_none() {
            return Err(SchemaError::StrKeyNotUtf8);
        }
        let mut buffer: [u8; MAX_STR_KEY_LEN] = [0u8; 255];
        let n: usize = bytes.len();
        let mut i: usize = 0;
        while i < n
            invariant
                i <= n <= MAX_STR_KEY_LEN,
                n == bytes@.len(),
                forall|k: int| 0 <= k < i ==> #[trigger] buffer@[k] == bytes@[k],
                forall|k: int| i <= k < MAX_STR_KEY_LEN ==> #[trigger] buffer@[k] == 0,
            decreases n - i,
        {
            buffer[i] = bytes[i];
            i = i + 1;
        }
        proof {
            assert(buffer@.take(n as int) =~= bytes@);
        }
        Ok(StrKey { buffer, len: n })
    }

    /// The key with this text.
    pub fn new(text: &str) -> (r: Result<StrKey, SchemaError>)
        ensures
            r is Err <==> key_error(encode_utf8(text@)) is Some,
            r is Err ==> Some(r->Err_0) == key_error(encode_utf8(text@)),
            r is Ok ==> r->Ok_0@ == encode_utf8(text@) && r->Ok_0.wf(),
    {
        StrKey::from_bytes(text.as_bytes())
    }

    /// The bytes of the key.
    pub fn as_bytes(&self) -> (bytes: Vec<u8>)
        ensures
            bytes@ == self@,
            self.wf(),
            key_error(self@) is None,
    {
        proof {
            use_type_invariant(self);
        }
        let mut bytes: Vec<u8> = Vec::with_capacity(self.len);
        let mut i: usize = 0;
        while i < self.len
            invariant
                i <= self.len <= MAX_STR_KEY_LEN,
                bytes@ =~= self.buffer@.take(i as int),
            decreases self.len - i,
        {
            bytes.push(self.buffer[i]);
            i = i + 1;
        }
        bytes
    }

    /// The text of the key.
    pub fn as_str(&self) -> (text: String)
        ensures
            encode_utf8(text@) == self@,
    {
        let bytes = self.as_bytes();
        match utf8_text(bytes.as_slice()) {
            Some(text) => {
                proof {
                    decode_utf8_encode_utf8(bytes@);
                }
                text
            },
            None => String::new(),
        }
    }
}

/// Keys are the same exactly when their bytes are, and the bytes of a key are accepted
/// as a key.
pub proof fn law_same_bytes_same_key(a: StrKey, b: StrKey)
    requires
        a.wf(),
        b.wf(),
    ensures
        a == b <==> a@ == b@,
        key_error(a@) is None,
{
    if a@ == b@ {
        assert(a.len == a@.len());
        assert(b.len == b@.len());
        assert forall|i: int| 0 <= i < MAX_STR_KEY_LEN implies a.buffer@[i] == b.buffer@[i] by {
            if i < a.len {
                assert(a.buffer@[i] == a@[i]);
                assert(b.buffer@[i] == b@[i]);
            }
        }
        assert(a.buffer =~= b.buffer);
    }
}

/// A string key has from 1 to 255 bytes of UTF-8, and anything else is refused with its
/// reason: that it is empty, then that it is too long, then that it is not UTF-8.
pub proof fn law_accepted_keys(bytes: Seq<u8>)
    ensures
        key_error(bytes) is None <==> 1 <= bytes.len() <= 255 && valid_utf8(bytes),
        bytes.len() == 0 <==> key_error(bytes) == Some(SchemaError::EmptyStrKey),
        bytes.len() > 255 ==> key_error(bytes) == Some(SchemaError::StrKeyTooLong { len: bytes.len() as usize, max: 255 }),
        1 <= bytes.len() <= 255 && !valid_utf8(bytes) ==> key_error(bytes) == Some(SchemaError::StrKeyNotUtf8),
{
}

/// A string key is made of bytes exactly where there are from 1 to 255 of them and they
/// are UTF-8, and has those very bytes; a text makes the key of its bytes, and the key
/// gives the text again.
pub proof fn law_string_keys(
    bytes: &[u8],
    r: Result<StrKey, SchemaError>,
    text: &str,
    s: Result<StrKey, SchemaError>,
    k: &StrKey,
    b: Vec<u8>,
    t: String,
)
    requires
        call_ensures(StrKey::from_bytes, (bytes,), r),
        call_ensures(StrKey::new, (text,), s),
        call_ensures(StrKey::as_bytes, (k,), b),
        call_ensures(StrKey::as_str, (k,), t),
    ensures
        r is Ok <==> 1 <= bytes@.len() <= 255 && valid_utf8(bytes@),
        r matches Ok(key) ==> key@ == bytes@,
        r matches Err(e) ==> (e is EmptyStrKey <==> bytes@.len() == 0),
        s is Ok <==> key_error(encode_utf8(text@)) is None,
        s matches Ok(key) ==> key@ == encode_utf8(text@),
        b@ == k@,
        encode_utf8(t@) == k@,
        1 <= b@.len() <= 255 && valid_utf8(b@),
{
    law_accepted_keys(bytes@);
    law_accepted_keys(b@);
}

} // verus!
