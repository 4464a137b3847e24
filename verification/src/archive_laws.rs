//! What holds of tables in archives and compressed files.
use vstd::prelude::*;

use crate::csv_archive::Wrapping;

verus! {

use crate::csv_archive::{
    csv_among, csv_in_tar, is_csv_member, member_of, unwrapped, wrapping_of, zstd_decoded,
    MemberModel,
};
use crate::csv_key_diff::{csv_in, csv_of, rows_of, CsvModel};
use crate::csv_text::{csv_headers, csv_records};
use crate::text::lowered;

/// Whether an archive has `count` members, all of which can be read as far as they are CSV
/// files.
pub open spec fn has_members(
    members: spec_fn(nat) -> Option<Result<MemberModel, Seq<char>>>,
    count: nat,
) -> bool {
    &&& count < usize::MAX
    &&& members(count) is None
    &&& forall|place: nat|
        place < count ==> member_is_readable(#[trigger] members(place))
}

/// Whether a member is there and can be read, if it is a CSV file.
pub open spec fn member_is_readable(member: Option<Result<MemberModel, Seq<char>>>) -> bool {
    member matches Some(Ok(member)) && (is_csv_member(member) ==> member.contents is Ok)
}

/// The contents of the CSV files among the members from `from` on.
pub open spec fn csv_files(
    members: spec_fn(nat) -> Option<Result<MemberModel, Seq<char>>>,
    from: nat,
    count: nat,
) -> Seq<Seq<u8>>
    decreases count - from,
{
    if from >= count {
        Seq::empty()
    } else {
        let others = csv_files(members, from + 1, count);
        let member = members(from)->0->Ok_0;
        if is_csv_member(member) {
            seq![member.contents->Ok_0] + others
        } else {
            others
        }
    }
}

/// What an archive with the CSV files gives.
pub open spec fn only_file(files: Seq<Seq<u8>>, path: Seq<char>) -> Result<Seq<u8>, Seq<char>> {
    if files.len() == 0 {
        Err("archive does not contain a csv file: "@ + path)
    } else if files.len() == 1 {
        Ok(files[0])
    } else {
        Err("archive contains multiple csv files, expected exactly one: "@ + path)
    }
}

/// What has been found, as a list.
spec fn found_files(found: Option<Seq<u8>>) -> Seq<Seq<u8>> {
    match found {
        Some(bytes) => seq![bytes],
        None => Seq::empty(),
    }
}

proof fn only_file_among(
    members: spec_fn(nat) -> Option<Result<MemberModel, Seq<char>>>,
    from: nat,
    count: nat,
    found: Option<Seq<u8>>,
    path: Seq<char>,
)
    requires
        has_members(members, count),
        from <= count,
    ensures
        csv_among(members, from, found, path) == only_file(
            found_files(found) + csv_files(members, from, count),
            path,
        ),
    decreases count - from,
{
    let before = found_files(found);
    let files = csv_files(members, from, count);
    if from == count {
        assert(before + files == before);
    } else {
        assert(member_is_readable(members(from)));
        let member = members(from)->0->Ok_0;
        let others = csv_files(members, from + 1, count);
        if !is_csv_member(member) {
            only_file_among(members, from + 1, count, found, path);
        } else {
            let bytes = member.contents->Ok_0;
            assert(before + (seq![bytes] + others) == before + seq![bytes] + others);
            if found is None {
                only_file_among(members, from + 1, count, Some(bytes), path);
                assert(before + seq![bytes] == found_files(Some(bytes)));
            }
        }
    }
}

/// An archive gives its CSV file if it has one, and an error if it has none or more.
pub proof fn archive_gives_its_only_csv_file(
    bytes: Seq<u8>,
    compressed: bool,
    count: nat,
    path: Seq<char>,
)
    requires
        has_members(|place: nat| member_of(bytes, compressed, place), count),
    ensures
        csv_in_tar(bytes, compressed, path) == only_file(
            csv_files(|place: nat| member_of(bytes, compressed, place), 0, count),
            path,
        ),
{
    let members = |place: nat| member_of(bytes, compressed, place);
    only_file_among(members, 0, count, None, path);
    assert(found_files(None) + csv_files(members, 0, count) == csv_files(members, 0, count));
}

/// Whether two results are tables with the same columns and rows, or the same error.
pub open spec fn same_contents(
    left: Result<CsvModel, Seq<char>>,
    right: Result<CsvModel, Seq<char>>,
) -> bool {
    match (left, right) {
        (Ok(left), Ok(right)) => left.headers == right.headers && left.rows == right.rows,
        (Err(left), Err(right)) => left == right,
        _ => false,
    }
}

/// A CSV file, the file compressed, and an archive with no other CSV file give the same table,
/// but for the paths.
pub proof fn wrapping_does_not_change_the_table(
    text: Seq<u8>,
    compressed: Seq<u8>,
    archive: Seq<u8>,
    count: nat,
    path: Seq<char>,
    compressed_path: Seq<char>,
    archive_path: Seq<char>,
)
    requires
        zstd_decoded(compressed) == Ok::<Seq<u8>, Seq<char>>(text),
        has_members(|place: nat| member_of(archive, false, place), count),
        csv_files(|place: nat| member_of(archive, false, place), 0, count) == seq![text],
    ensures
        same_contents(
            csv_in(path, Wrapping::Plain, text),
            csv_in(compressed_path, Wrapping::Zst, compressed),
        ),
        same_contents(
            csv_in(path, Wrapping::Plain, text),
            csv_in(archive_path, Wrapping::Tar, archive),
        ),
{
    archive_gives_its_only_csv_file(archive, false, count, archive_path);
    assert(unwrapped(archive_path, Wrapping::Tar, archive) == Ok::<Seq<u8>, Seq<char>>(text));
}

/// Whether a name ends with an ending, in capital letters or not.
pub open spec fn ends_in(name: Seq<char>, ending: Seq<char>) -> bool {
    exists|front: Seq<char>| lowered(name) == #[trigger] (front + ending)
}

proof fn suffix_is_ending(name: Seq<char>, ending: Seq<char>)
    ensures
        ending.is_suffix_of(lowered(name)) <==> ends_in(name, ending),
{
    let all = lowered(name);
    if ending.is_suffix_of(all) {
        let front = all.take(all.len() - ending.len());
        assert(all == front + ending);
    }
    if ends_in(name, ending) {
        let front = choose|front: Seq<char>| all == #[trigger] (front + ending);
        assert(all.subrange(all.len() - ending.len(), all.len() as int) == ending);
    }
}

/// The name of a file tells how it is wrapped: ".tar.zst" and ".tzst" are compressed archives,
/// ".tar" is an archive, any other ".zst" is a compressed file, and all other files are plain.
pub proof fn names_tell_the_wrapping(name: Seq<char>)
    ensures
        wrapping_of(name) == Wrapping::TarZst <==> ends_in(name, ".tar.zst"@) || ends_in(
            name,
            ".tzst"@,
        ),
        wrapping_of(name) == Wrapping::Tar <==> ends_in(name, ".tar"@),
        wrapping_of(name) == Wrapping::Zst <==> ends_in(name, ".zst"@) && !ends_in(
            name,
            ".tar.zst"@,
        ),
{
    suffix_is_ending(name, ".tar.zst"@);
    suffix_is_ending(name, ".tzst"@);
    suffix_is_ending(name, ".tar"@);
    suffix_is_ending(name, ".zst"@);
    reveal_strlit(".tar.zst");
    reveal_strlit(".tzst");
    reveal_strlit(".tar");
    reveal_strlit(".zst");
    let all = lowered(name);
    let last = all.len() - 1;
    if ends_in(name, ".tar"@) {
        assert(all.subrange(all.len() - 4, all.len() as int)[3] == 'r');
        assert(all[last] == 'r');
    }
    if ends_in(name, ".tar.zst"@) {
        assert(all.subrange(all.len() - 8, all.len() as int)[7] == 't');
        assert(all[last] == 't');
    }
    if ends_in(name, ".tzst"@) {
        assert(all.subrange(all.len() - 5, all.len() as int)[4] == 't');
        assert(all.subrange(all.len() - 5, all.len() as int)[1] == 't');
        assert(all[last] == 't' && all[last - 3] == 't');
    }
    if ends_in(name, ".zst"@) {
        assert(all.subrange(all.len() - 4, all.len() as int)[0] == '.');
        assert(all.subrange(all.len() - 4, all.len() as int)[3] == 't');
        assert(all[last] == 't' && all[last - 3] == '.');
    }
}

/// A member of an archive is a CSV file if it is an ordinary file with a name that ends with
/// ".csv", in capital letters or not.
pub proof fn csv_members_are_told_by_their_names(member: MemberModel)
    ensures
        is_csv_member(member) <==> member.is_file && ends_in(member.path, ".csv"@),
{
    suffix_is_ending(member.path, ".csv"@);
}

/// Whether records are all readable, and rows are what they say.
pub open spec fn are_rows_of(
    rows: Seq<Seq<Seq<char>>>,
    records: Seq<Result<Seq<Seq<char>>, Seq<char>>>,
) -> bool {
    &&& rows.len() == records.len()
    &&& forall|i: int|
        0 <= i < records.len() ==> #[trigger] records[i] == Ok::<Seq<Seq<char>>, Seq<char>>(rows[i])
}

/// The rows of a table are its records, in order, if all can be read; else the message is that of
/// the first that cannot.
pub proof fn rows_are_the_records(records: Seq<Result<Seq<Seq<char>>, Seq<char>>>)
    ensures
        rows_of(records) matches Ok(rows) ==> are_rows_of(rows, records),
        rows_of(records) matches Err(message) ==> exists|i: int| #[trigger]
            fails_first_at(records, i, message),
    decreases records.len(),
{
    if records.len() > 0 {
        let rest = records.drop_last();
        let last = records.len() - 1;
        rows_are_the_records(rest);
        match rows_of(rest) {
            Ok(rows) => {
                assert forall|i: int| 0 <= i < last implies #[trigger] records[i] == Ok::<
                    Seq<Seq<char>>,
                    Seq<char>,
                >(rows[i]) by {
                    assert(rest[i] == records[i]);
                }
                match records.last() {
                    Ok(row) => {
                        let all = rows.push(row);
                        assert forall|i: int| 0 <= i < records.len() implies #[trigger] records[i]
                            == Ok::<Seq<Seq<char>>, Seq<char>>(all[i]) by {
                            if i == last {
                                assert(records[i] == records.last());
                            }
                        }
                        assert(are_rows_of(all, records));
                    },
                    Err(message) => {
                        assert(fails_first_at(records, last, rows_of(records)->Err_0));
                    },
                }
            },
            Err(message) => {
                let i = choose|i: int| #[trigger] fails_first_at(rest, i, message);
                assert(rest[i] == records[i]);
                assert forall|k: int| 0 <= k < i implies #[trigger] records[k] is Ok by {
                    assert(rest[k] == records[k]);
                }
                assert(fails_first_at(records, i, rows_of(records)->Err_0));
            },
        }
    }
}

/// Whether a record cannot be read, and all before it can.
pub open spec fn fails_first_at(
    records: Seq<Result<Seq<Seq<char>>, Seq<char>>>,
    at: int,
    message: Seq<char>,
) -> bool {
    &&& 0 <= at < records.len()
    &&& records[at] == Err::<Seq<Seq<char>>, Seq<char>>(message)
    &&& forall|k: int| 0 <= k < at ==> #[trigger] records[k] is Ok
}

/// A table has the path that is asked for, the header record for its headers, and the records for
/// its rows. A plain file is read as it is.
pub proof fn tables_are_read_from_their_records(path: Seq<char>, name: Seq<char>, bytes: Seq<u8>)
    ensures
        csv_in(path, Wrapping::Plain, bytes) matches Ok(csv) ==> csv.path == path && csv_headers(
            bytes,
        ) == Ok::<Seq<Seq<char>>, Seq<char>>(csv.headers) && rows_of(csv_records(bytes)) == Ok::<
            Seq<Seq<Seq<char>>>,
            Seq<char>,
        >(csv.rows),
        csv_in(path, Wrapping::Plain, bytes) matches Err(message) ==> csv_headers(bytes) == Err::<
            Seq<Seq<char>>,
            Seq<char>,
        >(message) || rows_of(csv_records(bytes)) == Err::<Seq<Seq<Seq<char>>>, Seq<char>>(message),
        csv_of(path, name, bytes) == csv_in(path, wrapping_of(name), bytes),
{
}

/// Whether a member cannot be read, or is a CSV file that cannot.
pub open spec fn fails(member: Option<Result<MemberModel, Seq<char>>>, message: Seq<char>) -> bool {
    match member {
        Some(Err(said)) => said == message,
        Some(Ok(member)) => is_csv_member(member) && member.contents == Err::<Seq<u8>, Seq<char>>(
            message,
        ),
        None => false,
    }
}

proof fn failure_ends_the_search(
    members: spec_fn(nat) -> Option<Result<MemberModel, Seq<char>>>,
    from: nat,
    at: nat,
    found: Option<Seq<u8>>,
    path: Seq<char>,
    message: Seq<char>,
)
    requires
        from <= at < usize::MAX,
        forall|place: nat| from <= place < at ==> member_is_readable(#[trigger] members(place)),
        found_files(found).len() + csv_files(members, from, at).len() <= 1,
        fails(members(at), message),
    ensures
        csv_among(members, from, found, path) == Err::<Seq<u8>, Seq<char>>(message),
    decreases at - from,
{
    if from < at {
        assert(member_is_readable(members(from)));
        let member = members(from)->0->Ok_0;
        if is_csv_member(member) {
            failure_ends_the_search(
                members,
                from + 1,
                at,
                Some(member.contents->Ok_0),
                path,
                message,
            );
        } else {
            failure_ends_the_search(members, from + 1, at, found, path, message);
        }
    }
}

/// An archive with a member that cannot be read gives the message of the first such one, where no
/// more than one CSV file stands before it.
pub proof fn unreadable_members_are_told(
    bytes: Seq<u8>,
    compressed: bool,
    at: nat,
    path: Seq<char>,
    message: Seq<char>,
)
    requires
        at < usize::MAX,
        forall|place: nat|
            place < at ==> member_is_readable(#[trigger] member_of(bytes, compressed, place)),
        csv_files(|place: nat| member_of(bytes, compressed, place), 0, at).len() <= 1,
        fails(member_of(bytes, compressed, at), message),
    ensures
        csv_in_tar(bytes, compressed, path) == Err::<Seq<u8>, Seq<char>>(message),
{
    let members = |place: nat| member_of(bytes, compressed, place);
    assert forall|place: nat| 0 <= place < at implies member_is_readable(
        #[trigger] members(place),
    ) by {
        assert(member_is_readable(member_of(bytes, compressed, place)));
    }
    failure_ends_the_search(members, 0, at, None, path, message);
}

/// A plain file holds its bytes, a compressed one what is made of them, an archive its CSV file.
pub proof fn files_are_unwrapped(path: Seq<char>, bytes: Seq<u8>)
    ensures
        unwrapped(path, Wrapping::Plain, bytes) == Ok::<Seq<u8>, Seq<char>>(bytes),
        unwrapped(path, Wrapping::Zst, bytes) == zstd_decoded(bytes),
        unwrapped(path, Wrapping::Tar, bytes) == csv_in_tar(bytes, false, path),
        unwrapped(path, Wrapping::TarZst, bytes) == csv_in_tar(bytes, true, path),
{
}

} // verus!
