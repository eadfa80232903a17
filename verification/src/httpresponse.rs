//! Building a response value and serializing it onto the wire: status line,
//! headers, a Content-Length header added when a body is present and none was
//! set, a blank line, then the body bytes.

use vstd::prelude::*;
use vstd::string::StringSliceAdditionalSpecFns;
use crate::bytes::{
    assoc_insert, assoc_lookup, lemma_assoc_lookup_absent, lemma_assoc_lookup_at, str_eq,
};

verus! {

/// The response headers: a key-unique mapping kept in insertion order, which
/// fixes the order in which headers are written out.
#[derive(Debug, PartialEq, Clone)]
pub struct ResponseHeaders<'a> {
    entries: Vec<(&'a str, &'a str)>,
}

impl<'a> View for ResponseHeaders<'a> {
    type V = Seq<(Seq<u8>, Seq<u8>)>;

    closed spec fn view(&self) -> Seq<(Seq<u8>, Seq<u8>)> {
        self.entries@.map_values(|p: (&str, &str)| (p.0.spec_bytes(), p.1.spec_bytes()))
    }
}

impl<'a> ResponseHeaders<'a> {
    proof fn lemma_view_index(&self, j: int)
        requires
            0 <= j < self.entries@.len(),
        ensures
            self@.len() == self.entries@.len(),
            self@[j] == (self.entries@[j].0.spec_bytes(), self.entries@[j].1.spec_bytes()),
    {
    }

    pub fn new() -> (r: ResponseHeaders<'a>)
        ensures
            r@ == Seq::<(Seq<u8>, Seq<u8>)>::empty(),
    {
        let r = ResponseHeaders { entries: Vec::new() };
        proof {
            assert(r@ =~= Seq::<(Seq<u8>, Seq<u8>)>::empty());
        }
        r
    }

    pub fn len(&self) -> (r: usize)
        ensures
            r == self@.len(),
    {
        proof {
            assert(self@.len() == self.entries@.len());
        }
        self.entries.len()
    }

    /// Insert a binding; a later insert of the same key replaces the value.
    pub fn insert(&mut self, k: &'a str, v: &'a str)
        ensures
            final(self)@ == assoc_insert(old(self)@, k.spec_bytes(), v.spec_bytes()),
    {
        let ghost orig = self@;
        let mut i: usize = 0;
        while i < self.entries.len()
            invariant
                i <= self.entries.len(),
                self == old(self),
                orig == self@,
                forall|j: int| 0 <= j < i ==> #[trigger] self@[j].0 != k.spec_bytes(),
            decreases self.entries.len() - i,
        {
            proof {
                assert(self@.len() == self.entries@.len());
            }
            if str_eq(self.entries[i].0, k) {
                let ghost e0 = self.entries@;
                self.entries[i] = (k, v);
                proof {
                    crate::bytes::lemma_assoc_insert_at(orig, k.spec_bytes(), v.spec_bytes(), i as int);
                    assert(self.entries@ == e0.update(i as int, self.entries@[i as int]));
                    assert forall|j: int| 0 <= j < self@.len() implies self@[j] == orig.update(
                        i as int,
                        (k.spec_bytes(), v.spec_bytes()),
                    )[j] by {
                        self.lemma_view_index(j);
                    }
                    assert(self@ =~~= orig.update(i as int, (k.spec_bytes(), v.spec_bytes())));
                }
                return ;
            }
            i = i + 1;
        }
        self.entries.push((k, v));
        proof {
            crate::bytes::lemma_assoc_insert_absent(orig, k.spec_bytes(), v.spec_bytes());
            assert(self@ =~~= orig.push((k.spec_bytes(), v.spec_bytes())));
        }
    }

    /// Whether a header with this name is present.
    pub fn contains_key(&self, k: &str) -> (r: bool)
        ensures
            r == (assoc_lookup(self@, k.spec_bytes()) is Some),
    {
        let mut i: usize = 0;
        while i < self.entries.len()
            invariant
                i <= self.entries.len(),
                forall|j: int| 0 <= j < i ==> #[trigger] self@[j].0 != k.spec_bytes(),
            decreases self.entries.len() - i,
        {
            proof {
                assert(self@.len() == self.entries@.len());
            }
            if str_eq(self.entries[i].0, k) {
                proof {
                    lemma_assoc_lookup_at(self@, k.spec_bytes(), i as int);
                }
                return true;
            }
            i = i + 1;
        }
        proof {
            lemma_assoc_lookup_absent(self@, k.spec_bytes());
        }
        false
    }
}

/// The status text derived from a status code by a fixed lookup.
pub open spec fn spec_status_text(code: Seq<char>) -> Seq<char> {
    if code == "200"@ {
        "OK"@
    } else if code == "400"@ {
        "Bad Request"@
    } else if code == "404"@ {
        "Not Found"@
    } else if code == "500"@ {
        "Internal Server Error"@
    } else {
        Seq::empty()
    }
}

/// The decimal digits of a number.
pub open spec fn spec_dec(n: nat) -> Seq<u8>
    decreases n,
{
    if n < 10 {
        seq![(48 + n) as u8]
    } else {
        spec_dec(n / 10) + seq![(48 + n % 10) as u8]
    }
}

/// The decimal digits of a number, as bytes.
pub fn dec_bytes(n: usize) -> (r: Vec<u8>)
    ensures
        r@ == spec_dec(n as nat),
    decreases n,
{
    if n < 10 {
        let mut v: Vec<u8> = Vec::new();
        v.push((n as u8) + 48);
        proof {
            assert(v@ =~= spec_dec(n as nat));
        }
        v
    } else {
        let mut v = dec_bytes(n / 10);
        v.push(((n % 10) as u8) + 48);
        proof {
            assert(v@ =~= spec_dec(n as nat));
        }
        v
    }
}

/// Append the bytes of a slice to a buffer.
pub fn push_slice(out: &mut Vec<u8>, b: &[u8])
    ensures
        final(out)@ == old(out)@ + b@,
{
    let ghost base = out@;
    let n = b.len();
    let mut j: usize = 0;
    while j < n
        invariant
            j <= n,
            n == b@.len(),
            out@ =~= base + b@.take(j as int),
        decreases n - j,
    {
        out.push(*vstd::slice::slice_index_get(b, j));
        j = j + 1;
    }
    proof {
        assert(base + b@.take(n as int) =~= base + b@);
    }
}

/// Append the bytes of a string to a buffer.
pub fn push_str_bytes(out: &mut Vec<u8>, s: &str)
    ensures
        final(out)@ == old(out)@ + s.spec_bytes(),
{
    push_slice(out, s.as_bytes())
}

/// The serialized `name: value\r\n` header lines from entry `i` on.
pub open spec fn spec_hdr_lines(entries: Seq<(Seq<u8>, Seq<u8>)>, i: int) -> Seq<u8>
    decreases entries.len() - i,
{
    if i < 0 || i >= entries.len() {
        Seq::empty()
    } else {
        entries[i].0 + seq![58u8, 32u8] + entries[i].1 + seq![13u8, 10u8] + spec_hdr_lines(
            entries,
            i + 1,
        )
    }
}

#[derive(Debug, PartialEq, Clone)]
pub struct HttpResponse<'a> {
    pub version: &'a str,
    pub status_code: &'a str,
    pub status_text: &'a str,
    pub headers: Option<ResponseHeaders<'a>>,
    pub body: Option<Vec<u8>>,
}

impl<'a> Default for HttpResponse<'a> {
    /// A `200 OK` response with no headers and no body.
    fn default() -> (r: HttpResponse<'a>)
        ensures
            r.version@ == "HTTP/1.1"@,
            r.status_code@ == "200"@,
            r.status_text@ == "OK"@,
            r.headers is None,
            r.body is None,
    {
        HttpResponse {
            version: "HTTP/1.1",
            status_code: "200",
            status_text: "OK",
            headers: None,
            body: None,
        }
    }
}

impl<'a> HttpResponse<'a> {
    /// Build a response: the status text follows from the code, and absent
    /// headers default to `Content-Type: text/html`.
    pub fn new(
        status_code: &'a str,
        headers: Option<ResponseHeaders<'a>>,
        body: Option<Vec<u8>>,
    ) -> (r: HttpResponse<'a>)
        ensures
            r.version@ == "HTTP/1.1"@,
            r.status_code == status_code,
            r.status_text@ == spec_status_text(status_code@),
            match headers {
                Some(h) => r.headers matches Some(h2) && h2@ == h@,
                None => r.headers matches Some(h2) && h2@ == seq![
                    ("Content-Type".spec_bytes(), "text/html".spec_bytes()),
                ],
            },
            r.body == body,
    {
        let status_text: &'a str = if str_eq(status_code, "200") {
            "OK"
        } else if str_eq(status_code, "400") {
            "Bad Request"
        } else if str_eq(status_code, "404") {
            "Not Found"
        } else if str_eq(status_code, "500") {
            "Internal Server Error"
        } else {
            ""
        };
        proof {
            reveal_strlit("");
            assert(""@ =~= Seq::<char>::empty());
        }
        let hdrs = match headers {
            Some(h) => Some(h),
            None => {
                let mut h = ResponseHeaders::new();
                h.insert("Content-Type", "text/html");
                proof {
                    assert(h@ =~~= seq![("Content-Type".spec_bytes(), "text/html".spec_bytes())]);
                }
                Some(h)
            },
        };
        HttpResponse { version: "HTTP/1.1", status_code, status_text, headers: hdrs, body }
    }

    /// The full wire form of the response.
    pub open spec fn spec_render(&self) -> Seq<u8> {
        let status = self.version.spec_bytes() + seq![32u8] + self.status_code.spec_bytes()
            + seq![32u8] + self.status_text.spec_bytes() + seq![13u8, 10u8];
        let hdrs = match self.headers {
            Some(h) => spec_hdr_lines(h@, 0),
            None => Seq::<u8>::empty(),
        };
        let cl: Seq<u8> = if self.body is Some && (self.headers is None || assoc_lookup(
            self.headers->Some_0@,
            "Content-Length".spec_bytes(),
        ) is None) {
            "Content-Length".spec_bytes() + seq![58u8, 32u8] + spec_dec(self.body->Some_0@.len())
                + seq![13u8, 10u8]
        } else {
            Seq::<u8>::empty()
        };
        let bodyb = match self.body {
            Some(b) => b@,
            None => Seq::<u8>::empty(),
        };
        status + hdrs + cl + seq![13u8, 10u8] + bodyb
    }

    /// Serialize the response onto the wire, here a byte buffer.
    #[verifier::loop_isolation(false)]
    #[verifier::rlimit(60)]
    pub fn send_response(&self, out: &mut Vec<u8>)
        ensures
            final(out)@ == old(out)@ + self.spec_render(),
    {
        let ghost base = out@;
        push_str_bytes(out, self.version);
        out.push(32);
        push_str_bytes(out, self.status_code);
        out.push(32);
        push_str_bytes(out, self.status_text);
        out.push(13);
        out.push(10);
        let ghost status = self.version.spec_bytes() + seq![32u8] + self.status_code.spec_bytes()
            + seq![32u8] + self.status_text.spec_bytes() + seq![13u8, 10u8];
        proof {
            assert(out@ =~= base + status);
        }
        if let Some(h) = &self.headers {
            let n = h.entries.len();
            let ghost hv = h@;
            let ghost base2 = out@;
            let mut i: usize = 0;
            while i < n
                invariant
                    i <= n,
                    n == h.entries@.len(),
                    out@ + spec_hdr_lines(hv, i as int) =~= base2 + spec_hdr_lines(hv, 0),
                decreases n - i,
            {
                let ghost out0 = out@;
                proof {
                    h.lemma_view_index(i as int);
                }
                push_str_bytes(out, h.entries[i].0);
                out.push(58);
                out.push(32);
                push_str_bytes(out, h.entries[i].1);
                out.push(13);
                out.push(10);
                proof {
                    assert(out@ =~= out0 + (hv[i as int].0 + seq![58u8, 32u8] + hv[i as int].1
                        + seq![13u8, 10u8]));
                    assert(out@ + spec_hdr_lines(hv, i + 1) =~= base2 + spec_hdr_lines(hv, 0));
                }
                i = i + 1;
            }
            proof {
                assert(out@ =~= base + status + spec_hdr_lines(hv, 0));
            }
        }
        if let Some(b) = &self.body {
            let already_set = match &self.headers {
                Some(h) => h.contains_key("Content-Length"),
                None => false,
            };
            if !already_set {
                let ghost out0 = out@;
                push_str_bytes(out, "Content-Length");
                out.push(58);
                out.push(32);
                let digits = dec_bytes(b.len());
                push_slice(out, digits.as_slice());
                out.push(13);
                out.push(10);
                proof {
                    assert(out@ =~= out0 + ("Content-Length".spec_bytes() + seq![58u8, 32u8]
                        + spec_dec(b@.len()) + seq![13u8, 10u8]));
                }
            }
        }
        out.push(13);
        out.push(10);
        if let Some(b) = &self.body {
            push_slice(out, b.as_slice());
        }
        proof {
            assert(out@ =~= base + self.spec_render());
        }
    }
}

} // verus!
