//! The bytes of a CSV file that may be compressed, or packed into an archive.
use std::io::Read;

use vstd::prelude::*;

use crate::text::{ends_with, lower};

verus! {

use crate::text::lowered;

/// What a result of bytes says.
pub open spec fn bytes_result(result: Result<Vec<u8>, String>) -> Result<Seq<u8>, Seq<char>> {
    match result {
        Ok(bytes) => Ok(bytes@),
        Err(message) => Err(message@),
    }
}

/// A member of an archive: whether it is an ordinary file, its path, and its contents or why
/// they cannot be read.
pub struct Member {
    pub is_file: bool,
    pub path: String,
    pub contents: Result<Vec<u8>, String>,
}

/// What a [`Member`] says.
pub struct MemberModel {
    pub is_file: bool,
    pub path: Seq<char>,
    pub contents: Result<Seq<u8>, Seq<char>>,
}

impl View for Member {
    type V = MemberModel;

    open spec fn view(&self) -> MemberModel {
        MemberModel {
            is_file: self.is_file,
            path: self.path@,
            contents: bytes_result(self.contents),
        }
    }
}

/// What a member that may be missing, or may not be readable, says.
pub open spec fn member_result(member: Result<Option<Member>, String>) -> Option<
    Result<MemberModel, Seq<char>>,
> {
    match member {
        Ok(None) => None,
        Err(message) => Some(Err(message@)),
        Ok(Some(member)) => Some(Ok(member@)),
    }
}

/// What `zstd::Decoder` makes of the bytes, or its message.
pub uninterp spec fn zstd_decoded(bytes: Seq<u8>) -> Result<Seq<u8>, Seq<char>>;

/// Calls `zstd::Decoder::new` on the bytes and reads the decoder to its end; the result, or the
/// text of the error, is named.
#[verifier::external_body]
fn zstd_decode(bytes: &Vec<u8>) -> (result: Result<Vec<u8>, String>)
    ensures
        bytes_result(result) == zstd_decoded(bytes@),
{
    let mut decoder = zstd::Decoder::new(bytes.as_slice()).map_err(|error| error.to_string())?;
    let mut decoded = Vec::new();
    decoder.read_to_end(&mut decoded).map_err(|error| error.to_string())?;
    Ok(decoded)
}

/// The member of the `tar::Archive` of the bytes at a place, or the archive's message there;
/// `None` behind the last.
pub uninterp spec fn tar_member_of(bytes: Seq<u8>, place: nat) -> Option<
    Result<MemberModel, Seq<char>>,
>;

/// Goes to the entry of `tar::Archive::entries` at the place and takes its type, its path (any
/// bytes of it that are no UTF-8 replaced) and its contents; the result is named.
#[verifier::external_body]
fn tar_member(bytes: &Vec<u8>, place: usize) -> (member: Result<Option<Member>, String>)
    ensures
        member_result(member) == tar_member_of(bytes@, place as nat),
{
    let mut archive = tar::Archive::new(bytes.as_slice());
    let mut entries = archive.entries().map_err(|error| error.to_string())?;
    let Some(mut entry) = entries.nth(place).transpose().map_err(|error| error.to_string())? else {
        return Ok(None);
    };
    let is_file = entry.header().entry_type().is_file();
    let path = String::from_utf8_lossy(&entry.path_bytes()).into_owned();
    let mut contents = Vec::new();
    let read = entry.read_to_end(&mut contents).map_err(|error| error.to_string());
    Ok(Some(Member { is_file, path, contents: read.map(|_| contents) }))
}

/// The member at a place of the `tar::Archive` of what `zstd::Decoder` makes of the bytes, or
/// the message there; `None` behind the last.
pub uninterp spec fn tar_zst_member_of(bytes: Seq<u8>, place: nat) -> Option<
    Result<MemberModel, Seq<char>>,
>;

/// As [`tar_member`], with the archive read from a `zstd::Decoder` of the bytes: what stands
/// behind the archive's end is not decoded. The result is named. Where the decoder reads all the
/// bytes, the archive reads from it what it reads from their decoded form, so that the member is
/// the same.
#[verifier::external_body]
fn tar_zst_member(bytes: &Vec<u8>, place: usize) -> (member: Result<Option<Member>, String>)
    ensures
        member_result(member) == tar_zst_member_of(bytes@, place as nat),
        zstd_decoded(bytes@) matches Ok(data) ==> member_result(member) == tar_member_of(
            data,
            place as nat,
        ),
{
    let decoder = zstd::Decoder::new(bytes.as_slice()).map_err(|error| error.to_string())?;
    let mut archive = tar::Archive::new(decoder);
    let mut entries = archive.entries().map_err(|error| error.to_string())?;
    let Some(mut entry) = entries.nth(place).transpose().map_err(|error| error.to_string())? else {
        return Ok(None);
    };
    let is_file = entry.header().entry_type().is_file();
    let path = String::from_utf8_lossy(&entry.path_bytes()).into_owned();
    let mut contents = Vec::new();
    let read = entry.read_to_end(&mut contents).map_err(|error| error.to_string());
    Ok(Some(Member { is_file, path, contents: read.map(|_| contents) }))
}

/// Whether the member is a CSV file.
pub open spec fn is_csv_member(member: MemberModel) -> bool {
    member.is_file && ".csv"@.is_suffix_of(lowered(member.path))
}

/// How a CSV file may be wrapped, by the name of its file.
#[derive(Debug, Clone, Copy, PartialEq, Eq, Structural)]
pub enum Wrapping {
    TarZst,
    Tar,
    Zst,
    Plain,
}

/// How the file is wrapped, by its name.
pub open spec fn wrapping_of(file_name: Seq<char>) -> Wrapping {
    let name = lowered(file_name);
    if ".tar.zst"@.is_suffix_of(name) || ".tzst"@.is_suffix_of(name) {
        Wrapping::TarZst
    } else if ".tar"@.is_suffix_of(name) {
        Wrapping::Tar
    } else if ".zst"@.is_suffix_of(name) {
        Wrapping::Zst
    } else {
        Wrapping::Plain
    }
}

/// How the file is wrapped, by its name.
pub fn wrapping(file_name: &str) -> (result: Wrapping)
    ensures
        result == wrapping_of(file_name@),
{
    let name = lower(file_name);
    let name = name.as_str();
    if ends_with(name, ".tar.zst") || ends_with(name, ".tzst") {
        Wrapping::TarZst
    } else if ends_with(name, ".tar") {
        Wrapping::Tar
    } else if ends_with(name, ".zst") {
        Wrapping::Zst
    } else {
        Wrapping::Plain
    }
}

/// The member at a place of the archive that the bytes hold.
pub open spec fn member_of(bytes: Seq<u8>, compressed: bool, place: nat) -> Option<
    Result<MemberModel, Seq<char>>,
> {
    if compressed {
        tar_zst_member_of(bytes, place)
    } else {
        tar_member_of(bytes, place)
    }
}

/// The one CSV file among the members from `from` on, if `found` is the one before them; `None`
/// stands for none before them.
pub open spec fn csv_among(
    members: spec_fn(nat) -> Option<Result<MemberModel, Seq<char>>>,
    from: nat,
    found: Option<Seq<u8>>,
    path: Seq<char>,
) -> Result<Seq<u8>, Seq<char>>
    decreases usize::MAX - from,
{
    if from >= usize::MAX || members(from) is None {
        match found {
            Some(bytes) => Ok(bytes),
            None => Err("archive does not contain a csv file: "@ + path),
        }
    } else {
        match members(from)->0 {
            Err(message) => Err(message),
            Ok(member) => if !is_csv_member(member) {
                csv_among(members, from + 1, found, path)
            } else {
                match member.contents {
                    Err(message) => Err(message),
                    Ok(bytes) => if found is Some {
                        Err(
                            "archive contains multiple csv files, expected exactly one: "@ + path,
                        )
                    } else {
                        csv_among(members, from + 1, Some(bytes), path)
                    },
                }
            },
        }
    }
}

/// The one CSV file that the archive holds.
pub open spec fn csv_in_tar(bytes: Seq<u8>, compressed: bool, path: Seq<char>) -> Result<
    Seq<u8>,
    Seq<char>,
> {
    csv_among(|place: nat| member_of(bytes, compressed, place), 0, None, path)
}

/// What is found so far, as a value that may be missing.
pub open spec fn found_bytes(found: Option<Vec<u8>>) -> Option<Seq<u8>> {
    match found {
        Some(bytes) => Some(bytes@),
        None => None,
    }
}

/// The one CSV file that the archive holds.
pub fn read_csv_from_tar(path: &str, bytes: &Vec<u8>, compressed: bool) -> (result: Result<
    Vec<u8>,
    String,
>)
    ensures
        bytes_result(result) == csv_in_tar(bytes@, compressed, path@),
        compressed ==> (zstd_decoded(bytes@) matches Ok(data) ==> bytes_result(result)
            == csv_in_tar(data, false, path@)),
{
    let mut csv_entry: Option<Vec<u8>> = None;
    let mut place: usize = 0;
    let ghost members = |place: nat| member_of(bytes@, compressed, place);
    let ghost decodes = compressed && zstd_decoded(bytes@) is Ok;
    let ghost data = zstd_decoded(bytes@)->Ok_0;
    let ghost others = |place: nat| member_of(data, false, place);
    while place < usize::MAX
        invariant
            members == (|place: nat| member_of(bytes@, compressed, place)),
            others == (|place: nat| member_of(data, false, place)),
            decodes == (compressed && zstd_decoded(bytes@) is Ok),
            data == zstd_decoded(bytes@)->Ok_0,
            csv_in_tar(bytes@, compressed, path@) == csv_among(
                members,
                place as nat,
                found_bytes(csv_entry),
                path@,
            ),
            decodes ==> csv_in_tar(data, false, path@) == csv_among(
                others,
                place as nat,
                found_bytes(csv_entry),
                path@,
            ),
        decreases usize::MAX - place,
    {
        let member = if compressed {
            tar_zst_member(bytes, place)
        } else {
            tar_member(bytes, place)
        };
        assert(member_result(member) == members(place as nat));
        assert(decodes ==> member_result(member) == others(place as nat));
        match take_member(path, csv_entry, member) {
            Step::More(found) => {
                csv_entry = found;
            },
            Step::Done(result) => {
                return result;
            },
        }
        place = place + 1;
    }
    end_of_archive(path, csv_entry)
}

/// What to do after a member: go on with what is found so far, or stop with a result.
pub enum Step {
    More(Option<Vec<u8>>),
    Done(Result<Vec<u8>, String>),
}

/// What a step says of the file that is looked for, given what is said of the members behind
/// it.
pub open spec fn step_is(
    step: Step,
    member: Option<Result<MemberModel, Seq<char>>>,
    found: Option<Seq<u8>>,
    path: Seq<char>,
) -> bool {
    match member {
        None => step matches Step::Done(result) && bytes_result(result) == (match found {
            Some(bytes) => Ok(bytes),
            None => Err("archive does not contain a csv file: "@ + path),
        }),
        Some(Err(message)) => step matches Step::Done(result) && bytes_result(result) == Err::<
            Seq<u8>,
            Seq<char>,
        >(message),
        Some(Ok(member)) => if !is_csv_member(member) {
            step matches Step::More(more) && found_bytes(more) == found
        } else {
            match member.contents {
                Err(message) => step matches Step::Done(result) && bytes_result(result) == Err::<
                    Seq<u8>,
                    Seq<char>,
                >(message),
                Ok(bytes) => if found is Some {
                    step matches Step::Done(result) && bytes_result(result) == Err::<
                        Seq<u8>,
                        Seq<char>,
                    >("archive contains multiple csv files, expected exactly one: "@ + path)
                } else {
                    step matches Step::More(more) && found_bytes(more) == Some(bytes)
                },
            }
        },
    }
}

/// Looks at the next member of the archive.
pub fn take_member(
    path: &str,
    found: Option<Vec<u8>>,
    member: Result<Option<Member>, String>,
) -> (step: Step)
    ensures
        step_is(step, member_result(member), found_bytes(found), path@),
{
    let member = match member {
        Ok(None) => {
            return Step::Done(end_of_archive(path, found));
        },
        Err(message) => {
            return Step::Done(Err(message));
        },
        Ok(Some(member)) => member,
    };
    if !member.is_file {
        return Step::More(found);
    }
    let name = lower(member.path.as_str());
    if !ends_with(name.as_str(), ".csv") {
        return Step::More(found);
    }
    match member.contents {
        Err(message) => Step::Done(Err(message)),
        Ok(bytes) => {
            if found.is_some() {
                let mut message =
                    "archive contains multiple csv files, expected exactly one: ".to_owned();
                message.append(path);
                Step::Done(Err(message))
            } else {
                Step::More(Some(bytes))
            }
        },
    }
}

fn end_of_archive(path: &str, found: Option<Vec<u8>>) -> (result: Result<Vec<u8>, String>)
    ensures
        bytes_result(result) == (match found_bytes(found) {
            Some(bytes) => Ok(bytes),
            None => Err("archive does not contain a csv file: "@ + path@),
        }),
{
    match found {
        Some(bytes) => Ok(bytes),
        None => {
            let mut message = "archive does not contain a csv file: ".to_owned();
            message.append(path);
            Err(message)
        },
    }
}

/// The bytes of the CSV file in a file of the given name and bytes.
pub open spec fn csv_bytes_of(path: Seq<char>, file_name: Seq<char>, bytes: Seq<u8>) -> Result<
    Seq<u8>,
    Seq<char>,
> {
    unwrapped(path, wrapping_of(file_name), bytes)
}

/// The bytes of the CSV file that is wrapped in the bytes.
pub open spec fn unwrapped(path: Seq<char>, wrapping: Wrapping, bytes: Seq<u8>) -> Result<
    Seq<u8>,
    Seq<char>,
> {
    match wrapping {
        Wrapping::TarZst => csv_in_tar(bytes, true, path),
        Wrapping::Tar => csv_in_tar(bytes, false, path),
        Wrapping::Zst => zstd_decoded(bytes),
        Wrapping::Plain => Ok(bytes),
    }
}

/// The bytes of the CSV file in a file of the given name and bytes. A compressed archive holds
/// what the archive in it holds.
pub fn read_csv_bytes(path: &str, file_name: &str, bytes: Vec<u8>) -> (result: Result<
    Vec<u8>,
    String,
>)
    ensures
        bytes_result(result) == csv_bytes_of(path@, file_name@, bytes@),
        wrapping_of(file_name@) == Wrapping::TarZst ==> (zstd_decoded(bytes@) matches Ok(data)
            ==> bytes_result(result) == unwrapped(path@, Wrapping::Tar, data)),
{
    match wrapping(file_name) {
        Wrapping::TarZst => read_csv_from_tar(path, &bytes, true),
        Wrapping::Tar => read_csv_from_tar(path, &bytes, false),
        Wrapping::Zst => zstd_decode(&bytes),
        Wrapping::Plain => Ok(bytes),
    }
}

} // verus!
