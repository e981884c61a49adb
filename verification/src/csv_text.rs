//! Tables as CSV bytes, read and written by the `csv` crate.
use vstd::prelude::*;

use crate::analyze::observe::{find_observed, read_as, ResultData};
use crate::augment::table::{
    layout_of, read_table, row_views, table_of, table_wf, Layout, Table, TableView,
};
use crate::construct::plan::DesignPlan;
use crate::construct::types::{optional_text, Design};
use crate::error::Error;
use crate::text::views;

verus! {

/// What CSV bytes hold.
#[verifier::ext_equal]
pub struct Contents {
    pub headers: Seq<Seq<char>>,
    /// The records up to the first that cannot be read.
    pub rows: Seq<Seq<Seq<char>>>,
    /// The message for the first record that cannot be read, if there is one.
    pub failure: Option<Seq<char>>,
}

/// What `csv::Reader`, with its default settings, reads from bytes, or its
/// message where it cannot read the header.
pub uninterp spec fn csv_contents(bytes: Seq<u8>) -> Result<Contents, Seq<char>>;

/// The bytes that `csv::Writer`, with its default settings, writes for records,
/// or its message where it refuses them.
pub uninterp spec fn csv_bytes(records: Seq<Seq<Seq<char>>>) -> Result<Seq<u8>, Seq<char>>;

/// `csv::Reader::from_reader` with `headers` and `records`: the header, the
/// records up to the first that cannot be read, and the message for that one.
/// The reader refuses a record whose length differs from the header's.
#[verifier::external_body]
fn read_records(bytes: &[u8]) -> (r: Result<
    (Vec<String>, Vec<Vec<String>>, Option<String>),
    String,
>)
    ensures
        match r {
            Ok((headers, rows, failure)) => csv_contents(bytes@) == Ok::<Contents, Seq<char>>(
                Contents {
                    headers: views(headers@),
                    rows: row_views(rows@),
                    failure: optional_text(failure),
                },
            ) && forall|i: int|
                0 <= i < rows@.len() ==> (#[trigger] rows@[i])@.len() == headers@.len(),
            Err(e) => csv_contents(bytes@) == Err::<Contents, Seq<char>>(e@),
        },
{
    let mut reader = csv::Reader::from_reader(bytes);
    let headers: Vec<String> = match reader.headers() {
        Ok(h) => h.iter().map(str::to_owned).collect(),
        Err(e) => return Err(e.to_string()),
    };
    let mut rows: Vec<Vec<String>> = Vec::new();
    for record in reader.records() {
        match record {
            Ok(r) => rows.push(r.iter().map(str::to_owned).collect()),
            Err(e) => return Ok((headers, rows, Some(e.to_string()))),
        }
    }
    Ok((headers, rows, None))
}

/// All records have as many fields as the first.
pub open spec fn same_width(records: Seq<Seq<Seq<char>>>) -> bool {
    forall|i: int| 0 <= i < records.len() ==> (#[trigger] records[i]).len() == records[0].len()
}

/// Records whose bytes begin with a field that a reader takes as it stands: it
/// would pass over a byte order mark at the start.
pub open spec fn rereadable(records: Seq<Seq<Seq<char>>>) -> bool {
    &&& records.len() > 0
    &&& records[0].len() > 0
    &&& !(records[0][0].len() > 0 && records[0][0][0] as u32 == 0xfeff)
}

/// `csv::Writer::from_writer` with `write_record`: the bytes of the records, one
/// after another. The writer refuses records of different lengths, and nothing
/// else into a vector. It quotes fields where that is needed to read them back,
/// so that `csv::Reader` gives the same records, the first as the header.
#[verifier::external_body]
fn write_records(records: &Vec<Vec<String>>) -> (r: Result<Vec<u8>, String>)
    ensures
        match r {
            Ok(bytes) => csv_bytes(row_views(records@)) == Ok::<Seq<u8>, Seq<char>>(bytes@),
            Err(e) => csv_bytes(row_views(records@)) == Err::<Seq<u8>, Seq<char>>(e@),
        },
        r is Ok <==> same_width(row_views(records@)),
        r matches Ok(bytes) ==> (rereadable(row_views(records@)) ==> csv_contents(bytes@) == Ok::<
            Contents,
            Seq<char>,
        >(
            (Contents {
                headers: row_views(records@)[0],
                rows: row_views(records@).skip(1),
                failure: None,
            }),
        )),
{
    let mut writer = csv::Writer::from_writer(Vec::new());
    for record in records {
        writer.write_record(record).map_err(|e| e.to_string())?;
    }
    writer.into_inner().map_err(|e| e.to_string())
}

/// The table that bytes hold, as augmentation reads it: every record must be
/// readable, and the columns of the design must be there.
pub open spec fn table_in(bytes: Seq<u8>, l: Layout) -> Result<TableView, Seq<char>> {
    match csv_contents(bytes) {
        Err(m) => Err(m),
        Ok(c) => match c.failure {
            Some(m) => Err(m),
            None => table_of(c.headers, c.rows, l),
        },
    }
}

/// The table of a design.
pub fn parse_table(bytes: &[u8], design: &Design) -> (r: Result<Table, Error>)
    ensures
        match r {
            Ok(t) => table_in(bytes@, layout_of(*design)) == Ok::<TableView, Seq<char>>(t@)
                && table_wf(t@, layout_of(*design)),
            Err(e) => table_in(bytes@, layout_of(*design)) == Err::<TableView, Seq<char>>(e@),
        },
{
    match read_records(bytes) {
        Err(message) => Err(Error { message }),
        Ok((headers, rows, failure)) => match failure {
            Some(message) => Err(Error { message }),
            None => read_table(headers, rows, design),
        },
    }
}

/// The table that bytes hold, as the analysis reads it, with the message for the
/// first record that cannot be read. That one matters only where the records
/// before it are in order.
pub open spec fn observed_in(bytes: Seq<u8>, l: Layout) -> Result<
    (TableView, Option<Seq<char>>),
    Seq<char>,
> {
    match csv_contents(bytes) {
        Err(m) => Err(m),
        Ok(c) => match read_as(c.headers, c.rows, l) {
            Err(m) => Err(m),
            Ok(t) => Ok((t, c.failure)),
        },
    }
}

/// The table of a design, with the message for the first record that cannot be
/// read.
pub fn parse_observed(bytes: &[u8], design: &Design) -> (r: Result<(Table, Option<String>), Error>)
    ensures
        match r {
            Ok((t, failure)) => observed_in(bytes@, layout_of(*design)) == Ok::<
                (TableView, Option<Seq<char>>),
                Seq<char>,
            >((t@, optional_text(failure))) && table_wf(t@, layout_of(*design)),
            Err(e) => observed_in(bytes@, layout_of(*design)) == Err::<
                (TableView, Option<Seq<char>>),
                Seq<char>,
            >(e@),
        },
{
    match read_records(bytes) {
        Err(message) => Err(Error { message }),
        Ok((headers, rows, failure)) => match find_observed(headers, rows, design) {
            Ok(t) => Ok((t, failure)),
            Err(e) => Err(e),
        },
    }
}

/// The observations, unless a record could not be read: an error in a record
/// before that one comes first.
pub fn settle_observed(read: Result<Vec<ResultData>, Error>, failure: Option<String>) -> (r: Result<
    Vec<ResultData>,
    Error,
>)
    ensures
        match (read, failure) {
            (Err(e), _) => r == Err::<Vec<ResultData>, Error>(e),
            (Ok(_), Some(m)) => r matches Err(e) && e@ == m@,
            (Ok(d), None) => r == Ok::<Vec<ResultData>, Error>(d),
        },
{
    match read {
        Err(e) => Err(e),
        Ok(d) => match failure {
            Some(message) => Err(Error { message }),
            None => Ok(d),
        },
    }
}

/// The header and the rows of a table, one after another.
pub open spec fn with_header(header: Seq<Seq<char>>, rows: Seq<Seq<Seq<char>>>) -> Seq<
    Seq<Seq<char>>,
> {
    seq![header] + rows
}

/// The bytes of a table that reads back as it was written, with the columns of
/// any design.
pub open spec fn reads_back(
    bytes: Seq<u8>,
    header: Seq<Seq<char>>,
    rows: Seq<Seq<Seq<char>>>,
) -> bool {
    &&& csv_contents(bytes) == Ok::<Contents, Seq<char>>(
        (Contents { headers: header, rows, failure: None }),
    )
    &&& forall|l: Layout| #[trigger] table_in(bytes, l) == table_of(header, rows, l)
}

/// The bytes of a table. Every row must have as many cells as the header. What is
/// written reads back as it was, unless the header is empty or begins with a byte
/// order mark.
pub fn table_bytes(header: &Vec<String>, rows: &Vec<Vec<String>>) -> (r: Result<Vec<u8>, Error>)
    ensures
        match r {
            Ok(bytes) => csv_bytes(with_header(views(header@), row_views(rows@))) == Ok::<
                Seq<u8>,
                Seq<char>,
            >(bytes@),
            Err(e) => csv_bytes(with_header(views(header@), row_views(rows@))) == Err::<
                Seq<u8>,
                Seq<char>,
            >(e@),
        },
        r is Ok <==> same_width(with_header(views(header@), row_views(rows@))),
        r matches Ok(bytes) ==> (rereadable(with_header(views(header@), row_views(rows@)))
            ==> reads_back(bytes@, views(header@), row_views(rows@))),
{
    let mut records: Vec<Vec<String>> = Vec::new();
    records.push(copy_record(header));
    let mut i: usize = 0;
    while i < rows.len()
        invariant
            i <= rows@.len(),
            records@.len() == i + 1,
            views(records@[0]@) == views(header@),
            forall|k: int| 0 <= k < i ==> views((#[trigger] records@[k + 1])@) == views(rows@[k]@),
        decreases rows@.len() - i,
    {
        records.push(copy_record(&rows[i]));
        i = i + 1;
    }
    proof {
        let whole = with_header(views(header@), row_views(rows@));
        assert forall|k: int| 0 <= k < records@.len() implies #[trigger] row_views(records@)[k]
            == whole[k] by {
            if k > 0 {
                assert(views(records@[(k - 1) + 1]@) == views(rows@[k - 1]@));
            }
        }
        assert(row_views(records@) =~= whole);
        assert(whole.skip(1) =~= row_views(rows@));
    }
    match write_records(&records) {
        Ok(bytes) => Ok(bytes),
        Err(message) => Err(Error { message }),
    }
}

fn copy_record(record: &Vec<String>) -> (out: Vec<String>)
    ensures
        views(out@) == views(record@),
{
    let mut out: Vec<String> = Vec::new();
    let mut i: usize = 0;
    while i < record.len()
        invariant
            i <= record@.len(),
            out@.len() == i,
            forall|k: int| 0 <= k < i ==> (#[trigger] out@[k])@ == record@[k]@,
        decreases record@.len() - i,
    {
        out.push(record[i].clone());
        i = i + 1;
    }
    assert(views(out@) =~= views(record@));
    out
}

impl DesignPlan {
    /// The bytes of the table of the design.
    pub fn to_bytes(&self) -> (r: Result<Vec<u8>, Error>)
        ensures
            match r {
                Ok(bytes) => csv_bytes(
                    with_header(views(self.header@), row_views(self.records@)),
                ) == Ok::<Seq<u8>, Seq<char>>(bytes@),
                Err(e) => csv_bytes(
                    with_header(views(self.header@), row_views(self.records@)),
                ) == Err::<Seq<u8>, Seq<char>>(e@),
            },
            r is Ok <==> same_width(with_header(views(self.header@), row_views(self.records@))),
            r matches Ok(bytes) ==> (rereadable(
                with_header(views(self.header@), row_views(self.records@)),
            ) ==> reads_back(bytes@, views(self.header@), row_views(self.records@))),
    {
        table_bytes(&self.header, &self.records)
    }
}

} // verus!
