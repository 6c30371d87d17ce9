//! Deciding what, if anything, to write to object storage for the bytes one
//! connector pull returned.

use vstd::pervasive::unreached;
use vstd::prelude::*;
use vstd::string::StringExecFns;

verus! {

#[verifier::external_type_specification]
#[verifier::external_body]
pub struct ExIoError(std::io::Error);

/// What zstd's stream encoder produces from `data` at the default level.
pub uninterp spec fn zstd_frame(data: Seq<u8>) -> Seq<u8>;

/// Relies on zstd::stream::encode_all: into an in-memory `Vec` at the
/// default level (0) it yields the complete zstd frame of `data`; its only
/// failures come from the output writer, which a `Vec` does not produce.
#[verifier::external_body]
fn zstd_compress(data: &Vec<u8>) -> (r: Result<Vec<u8>, std::io::Error>)
    ensures
        r is Ok,
        r->Ok_0@ == zstd_frame(data@),
{
    zstd::stream::encode_all(data.as_slice(), 0)
}

/// Relies on uuid::Uuid::new_v4 and its `Display` form: a fresh random
/// identifier in the 36-character hyphenated form, never derived from the
/// data or the request.
#[verifier::external_body]
fn fresh_object_id() -> (r: String)
    ensures
        r@.len() == 36,
{
    uuid::Uuid::new_v4().to_string()
}

/// The storage key `{source}/{id}.json.zst`.
pub fn object_key_of(source_name: &str, object_id: &str) -> (r: String)
    ensures
        r@ == object_key(source_name@, object_id@),
{
    let mut r = source_name.to_owned();
    r.append("/");
    r.append(object_id);
    r.append(".json.zst");
    proof {
        reveal_strlit("/");
        reveal_strlit(".json.zst");
        assert(r@ =~= object_key(source_name@, object_id@));
    }
    r
}

/// The extension of archive objects.
pub open spec fn archive_suffix() -> Seq<char> {
    seq!['.', 'j', 's', 'o', 'n', '.', 'z', 's', 't']
}

/// The content encoding that archive objects declare.
pub open spec fn zstd_encoding() -> Seq<char> {
    seq!['a', 'p', 'p', 'l', 'i', 'c', 'a', 't', 'i', 'o', 'n', '/', 'z', 's', 't', 'd']
}

/// `{source}/{id}.json.zst`
pub open spec fn object_key(source_name: Seq<char>, object_id: Seq<char>) -> Seq<char> {
    source_name + seq!['/'] + object_id + archive_suffix()
}

/// The storage action for one pull.
pub enum ArchivePlan {
    /// Nothing new: no object is written.
    NoNewData,
    /// Exactly one object is written.
    Write { key: String, body: Vec<u8>, content_encoding: String },
}

/// The write for an already compressed payload.
pub fn write_plan(source_name: &str, object_id: &str, compressed: Vec<u8>) -> (r: ArchivePlan)
    ensures
        r matches ArchivePlan::Write { key, body, content_encoding } && key@ == object_key(
            source_name@,
            object_id@,
        ) && body@ == compressed@ && content_encoding@ == zstd_encoding(),
{
    let key = object_key_of(source_name, object_id);
    let content_encoding = "application/zstd".to_owned();
    proof {
        reveal_strlit("application/zstd");
        assert(content_encoding@ =~= zstd_encoding());
    }
    ArchivePlan::Write { key, body: compressed, content_encoding }
}

/// Plans the archive of `data` under `object_id`. Empty data means nothing
/// new and writes nothing; otherwise there is exactly one write, holding the
/// zstd frame of `data`, under a key scoped by the source name.
pub fn plan_archive(source_name: &str, data: &Vec<u8>, object_id: &str) -> (r: ArchivePlan)
    ensures
        data@.len() == 0 ==> r == ArchivePlan::NoNewData,
        data@.len() > 0 ==> (r matches ArchivePlan::Write { key, body, content_encoding } && key@
            == object_key(source_name@, object_id@) && body@ == zstd_frame(data@)
            && content_encoding@ == zstd_encoding()),
{
    if data.len() == 0 {
        return ArchivePlan::NoNewData;
    }
    match zstd_compress(data) {
        Ok(compressed) => write_plan(source_name, object_id, compressed),
        Err(_) => unreached(),
    }
}

/// Plans the archive of `data` under a freshly drawn object id, so that
/// archiving the same pull twice gives two objects and overwrites none.
pub fn prepare_archive(source_name: &str, data: &Vec<u8>) -> (r: ArchivePlan)
    ensures
        data@.len() == 0 ==> r == ArchivePlan::NoNewData,
        data@.len() > 0 ==> (r matches ArchivePlan::Write { key, body, content_encoding } && (exists|
            id: Seq<char>,
        | id.len() == 36 && key@ == #[trigger] object_key(source_name@, id)) && body@ == zstd_frame(
            data@,
        ) && content_encoding@ == zstd_encoding()),
{
    if data.len() == 0 {
        return ArchivePlan::NoNewData;
    }
    let object_id = fresh_object_id();
    plan_archive(source_name, data, object_id.as_str())
}

} // verus!
