//! What the content-addressed store says, read as bytes. An address is
//! written with the scheme `ipfs://` in front. The store answers with white
//! space around what it says, which is cut off. A directory listing has one
//! entry on each line, its fields separated by blanks: the entry's own
//! identifier, its size and its name. A line with fewer fields lists nothing.

use vstd::prelude::*;
use vstd::string::*;
use crate::merkle::views;
use crate::signing::strip_prefix;

verus! {

/// Whether `byte` separates fields: a space, a tab, a vertical tab, a form
/// feed or a carriage return.
pub open spec fn is_blank(byte: u8) -> bool {
    byte == 32 || byte == 9 || byte == 11 || byte == 12 || byte == 13
}

/// Whether `byte` is white space: a blank or a line feed.
pub open spec fn is_space(byte: u8) -> bool {
    is_blank(byte) || byte == 10
}

/// The scheme of an address, `ipfs://`, in bytes.
pub open spec fn scheme() -> Seq<u8> {
    seq![105u8, 112u8, 102u8, 115u8, 58u8, 47u8, 47u8]
}

/// `bytes` without the white space at its end.
pub open spec fn trim_end(bytes: Seq<u8>) -> Seq<u8>
    decreases bytes.len(),
{
    if bytes.len() > 0 && is_space(bytes.last()) {
        trim_end(bytes.drop_last())
    } else {
        bytes
    }
}

/// `bytes` without the white space at its start.
pub open spec fn trim_start(bytes: Seq<u8>) -> Seq<u8>
    decreases bytes.len(),
{
    if bytes.len() > 0 && is_space(bytes[0]) {
        trim_start(bytes.skip(1))
    } else {
        bytes
    }
}

/// `bytes` without the white space around it.
pub open spec fn trimmed(bytes: Seq<u8>) -> Seq<u8> {
    trim_start(trim_end(bytes))
}

/// Where a reader of a listing stands.
pub ghost struct Reading {
    /// Fields begun on the current line, counted up to four.
    pub fields: nat,
    /// Whether the reader is inside a field.
    pub inside: bool,
    /// The first field of the current line, as far as it was read.
    pub first: Seq<u8>,
    /// The addresses of the entries read so far.
    pub addresses: Seq<Seq<u8>>,
}

/// The addresses after the current line has ended.
pub open spec fn closed(r: Reading) -> Seq<Seq<u8>> {
    if r.fields >= 3 {
        r.addresses.push(scheme() + r.first)
    } else {
        r.addresses
    }
}

/// The reader after one more byte.
pub open spec fn read_byte(r: Reading, byte: u8) -> Reading {
    if byte == 10 {
        Reading { fields: 0, inside: false, first: Seq::empty(), addresses: closed(r) }
    } else if is_blank(byte) {
        Reading { inside: false, ..r }
    } else {
        let fields = if r.inside || r.fields >= 4 {
            r.fields
        } else {
            r.fields + 1
        };
        Reading {
            fields,
            inside: true,
            first: if fields == 1 {
                r.first.push(byte)
            } else {
                r.first
            },
            addresses: r.addresses,
        }
    }
}

/// The reader after `listing`.
pub open spec fn read_all(listing: Seq<u8>) -> Reading
    decreases listing.len(),
{
    if listing.len() == 0 {
        Reading { fields: 0, inside: false, first: Seq::empty(), addresses: Seq::empty() }
    } else {
        read_byte(read_all(listing.drop_last()), listing.last())
    }
}

/// The addresses in `listing`: for every line with three fields or more, in
/// the order of the lines, its first field with the scheme in front.
pub open spec fn addresses_in(listing: Seq<u8>) -> Seq<Seq<u8>> {
    closed(read_all(listing))
}

/// Whether `byte` is white space.
fn is_space_byte(byte: u8) -> (yes: bool)
    ensures
        yes == is_space(byte),
{
    byte == 32 || byte == 9 || byte == 10 || byte == 11 || byte == 12 || byte == 13
}

/// The address of the content with the identifier `cid`.
pub fn with_scheme(cid: &Vec<u8>) -> (address: Vec<u8>)
    ensures
        address@ == scheme() + cid@,
{
    let mut address: Vec<u8> = Vec::new();
    address.push(105);
    address.push(112);
    address.push(102);
    address.push(115);
    address.push(58);
    address.push(47);
    address.push(47);
    proof {
        assert(address@ =~= scheme());
    }
    let mut i: usize = 0;
    while i < cid.len()
        invariant
            i <= cid@.len(),
            address@ == scheme() + cid@.take(i as int),
        decreases cid@.len() - i,
    {
        address.push(cid[i]);
        proof {
            assert(scheme() + cid@.take(i + 1) =~= (scheme() + cid@.take(i as int)).push(
                cid@[i as int],
            ));
        }
        i += 1;
    }
    proof {
        assert(cid@.take(i as int) =~= cid@);
    }
    address
}

/// What the store said, without the white space around it.
pub fn trimmed_output(output: &[u8]) -> (bytes: Vec<u8>)
    ensures
        bytes@ == trimmed(output@),
{
    let mut end: usize = output.len();
    let mut at_end = false;
    proof {
        assert(output@.take(end as int) =~= output@);
    }
    while end > 0 && !at_end
        invariant
            end <= output@.len(),
            trim_end(output@) == trim_end(output@.take(end as int)),
            at_end ==> end > 0 && !is_space(output@[end - 1]),
        decreases end + if at_end { 0int } else { 1int },
    {
        if is_space_byte(output[end - 1]) {
            proof {
                assert(output@.take(end as int).drop_last() =~= output@.take(end - 1));
            }
            end -= 1;
        } else {
            at_end = true;
        }
    }
    let ghost kept = output@.take(end as int);
    proof {
        assert(trim_end(output@) == kept);
        assert(kept.subrange(0, end as int) =~= kept);
    }
    let mut start: usize = 0;
    let mut at_start = false;
    while start < end && !at_start
        invariant
            start <= end <= output@.len(),
            kept == output@.take(end as int),
            trim_start(kept) == trim_start(kept.subrange(start as int, end as int)),
            at_start ==> start < end && !is_space(output@[start as int]),
        decreases end - start + if at_start { 0int } else { 1int },
    {
        if is_space_byte(output[start]) {
            proof {
                assert(kept.subrange(start as int, end as int).skip(1) =~= kept.subrange(
                    start + 1,
                    end as int,
                ));
            }
            start += 1;
        } else {
            at_start = true;
        }
    }
    proof {
        assert(trim_start(kept) == kept.subrange(start as int, end as int));
    }
    let mut bytes: Vec<u8> = Vec::new();
    let mut i: usize = start;
    while i < end
        invariant
            start <= i <= end <= output@.len(),
            kept == output@.take(end as int),
            bytes@ == kept.subrange(start as int, i as int),
        decreases end - i,
    {
        bytes.push(output[i]);
        proof {
            assert(kept.subrange(start as int, i + 1) =~= kept.subrange(start as int, i as int).push(
                output@[i as int],
            ));
        }
        i += 1;
    }
    bytes
}

/// The address under which the store published something: what it said,
/// without the white space around it, with the scheme in front.
pub fn published_address(output: &[u8]) -> (address: Vec<u8>)
    ensures
        address@ == scheme() + trimmed(output@),
{
    let cid = trimmed_output(output);
    with_scheme(&cid)
}

/// The addresses of the entries in a directory listing, in the order of
/// the listing.
pub fn entry_addresses(listing: &[u8]) -> (addresses: Vec<Vec<u8>>)
    ensures
        views(addresses@) == addresses_in(listing@),
{
    let mut addresses: Vec<Vec<u8>> = Vec::new();
    let mut first: Vec<u8> = Vec::new();
    let mut fields: u8 = 0;
    let mut inside = false;
    let mut i: usize = 0;
    proof {
        assert(listing@.take(0) =~= Seq::<u8>::empty());
        assert(views(addresses@) =~= Seq::<Seq<u8>>::empty());
    }
    while i < listing.len()
        invariant
            i <= listing@.len(),
            fields <= 4,
            read_all(listing@.take(i as int)) == (Reading {
                fields: fields as nat,
                inside,
                first: first@,
                addresses: views(addresses@),
            }),
        decreases listing@.len() - i,
    {
        let byte = listing[i];
        let ghost before = views(addresses@);
        proof {
            assert(listing@.take(i + 1).drop_last() =~= listing@.take(i as int));
            assert(listing@.take(i + 1).last() == byte);
        }
        if byte == 10 {
            if fields >= 3 {
                let address = with_scheme(&first);
                let ghost written = address@;
                addresses.push(address);
                proof {
                    assert(views(addresses@) =~= before.push(written));
                }
            }
            first = Vec::new();
            fields = 0;
            inside = false;
        } else if byte == 32 || byte == 9 || byte == 11 || byte == 12 || byte == 13 {
            inside = false;
        } else {
            if !inside && fields < 4 {
                fields = fields + 1;
            }
            inside = true;
            if fields == 1 {
                first.push(byte);
            }
        }
        i += 1;
    }
    proof {
        assert(listing@.take(i as int) =~= listing@);
    }
    if fields >= 3 {
        let ghost before = views(addresses@);
        let address = with_scheme(&first);
        let ghost written = address@;
        addresses.push(address);
        proof {
            assert(views(addresses@) =~= before.push(written));
        }
    }
    addresses
}

/// The identifier in `address`: what follows the scheme, or all of it
/// where it has no scheme.
pub fn bare_identifier<'a>(address: &'a str) -> (cid: &'a str)
    ensures
        cid@ == if "ipfs://"@.is_prefix_of(address@) {
            address@.skip("ipfs://"@.len() as int)
        } else {
            address@
        },
{
    match strip_prefix(address, "ipfs://") {
        Some(rest) => rest,
        None => address,
    }
}

/// The address of content whose identifier is `cid`.
pub fn store_address(cid: &str) -> (address: String)
    ensures
        address@ == "ipfs://"@ + cid@,
{
    String::from_str("ipfs://").concat(cid)
}

} // verus!
