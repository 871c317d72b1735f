//! What the contexts of the proxy tell each other about fetches.

use crate::text;
use vstd::prelude::*;
use vstd::string::*;

verus! {

/// The virtual partitions that a fetch asks for.
#[derive(Debug)]
pub struct FetchRequestData {
    pub context_id: u32,
    pub correlation_id: i32,
    pub session_id: i32,
    pub session_epoch: i32,
    pub body_version: i16,
    pub partitions: Vec<FetchRequestDataPartition>,
}

/// A virtual partition that a fetch asks for, and the offset to read from.
#[derive(Debug)]
pub struct FetchRequestDataPartition {
    pub topic: String,
    pub partition: i32,
    pub fetch_offset: i64,
}

/// The records of a virtual partition.
#[derive(Debug)]
pub struct FetchResponseData {
    pub session_id: i32,
    pub session_epoch: i32,
    pub topic: String,
    pub partition: i32,
    pub fetch_offset: i64,
    pub records: Vec<u8>,
}

/// What is known of the records of a virtual partition.
#[verifier::ext_equal]
pub struct ResponseDataView {
    pub session_id: i32,
    pub session_epoch: i32,
    pub topic: Seq<char>,
    pub partition: i32,
    pub fetch_offset: i64,
    pub records: Seq<u8>,
}

impl DeepView for FetchResponseData {
    type V = ResponseDataView;

    open spec fn deep_view(&self) -> ResponseDataView {
        ResponseDataView {
            session_id: self.session_id,
            session_epoch: self.session_epoch,
            topic: self.topic@,
            partition: self.partition,
            fetch_offset: self.fetch_offset,
            records: self.records@,
        }
    }
}

/// What is known of a virtual partition that a fetch asks for.
#[verifier::ext_equal]
pub struct RequestPartitionView {
    pub topic: Seq<char>,
    pub partition: i32,
    pub fetch_offset: i64,
}

impl DeepView for FetchRequestDataPartition {
    type V = RequestPartitionView;

    open spec fn deep_view(&self) -> RequestPartitionView {
        RequestPartitionView {
            topic: self.topic@,
            partition: self.partition,
            fetch_offset: self.fetch_offset,
        }
    }
}

/// What is known of the virtual partitions that a fetch asks for.
#[verifier::ext_equal]
pub struct RequestDataView {
    pub context_id: u32,
    pub correlation_id: i32,
    pub session_id: i32,
    pub session_epoch: i32,
    pub body_version: i16,
    pub partitions: Seq<RequestPartitionView>,
}

impl DeepView for FetchRequestData {
    type V = RequestDataView;

    open spec fn deep_view(&self) -> RequestDataView {
        RequestDataView {
            context_id: self.context_id,
            correlation_id: self.correlation_id,
            session_id: self.session_id,
            session_epoch: self.session_epoch,
            body_version: self.body_version,
            partitions: self.partitions.deep_view(),
        }
    }
}

/// A fetch that waits for its virtual partitions. The time is in nanoseconds.
#[derive(Debug)]
pub struct ConnectionInfo {
    pub response_initial_time: u128,
    pub timeout: bool,
    pub request_data: FetchRequestData,
    pub response_data: Option<Vec<u8>>,
}

/// What is known of a fetch that waits.
#[verifier::ext_equal]
pub struct ConnectionView {
    pub response_initial_time: u128,
    pub timeout: bool,
    pub request_data: RequestDataView,
    pub response_data: Option<Seq<u8>>,
}

impl DeepView for ConnectionInfo {
    type V = ConnectionView;

    open spec fn deep_view(&self) -> ConnectionView {
        ConnectionView {
            response_initial_time: self.response_initial_time,
            timeout: self.timeout,
            request_data: self.request_data.deep_view(),
            response_data: match self.response_data {
                Some(data) => Some(data@),
                None => None,
            },
        }
    }
}

/// The fetches that wait, by the context of their connection.
pub type Connections = Map<u32, ConnectionView>;

/// What is known of the fetches that wait.
pub open spec fn connections_view(connections: Map<u32, ConnectionInfo>) -> Connections {
    connections.map_values(|c: ConnectionInfo| c.deep_view())
}

/// The text of a topic as Rust source would quote it, which `{:?}` writes.
pub uninterp spec fn quoted(text: Seq<char>) -> Seq<char>;

/// `format!` with `{:?}` quotes a text.
#[verifier::external_body]
fn quote(text: &String) -> (r: String)
    ensures
        r@ == quoted(text@),
{
    format!("{:?}", text)
}

/// The name of the queue of a partition: the topic, a dash, and the partition.
pub open spec fn queue_key(topic: Seq<char>, partition: int) -> Seq<char> {
    topic + seq!['-'] + text::decimal(partition)
}

/// The name under which the records of a partition from an offset on are kept.
pub open spec fn records_key(topic: Seq<char>, partition: int, offset: int) -> Seq<char> {
    queue_key(topic, partition) + seq!['-'] + text::decimal(offset)
}

/// What stands before the last dash, and the number after it, are told by the text that they
/// make.
proof fn lemma_last_dash(a: Seq<char>, m: nat, b: Seq<char>, n: nat)
    requires
        a + seq!['-'] + text::decimal_nat(m) == b + seq!['-'] + text::decimal_nat(n),
    ensures
        a == b,
        m == n,
{
    text::decimals_are_digits(m);
    text::decimals_are_digits(n);
    let (x, y) = (text::decimal_nat(m), text::decimal_nat(n));
    let whole = a + seq!['-'] + x;
    assert(whole[a.len() as int] == '-');
    assert(whole[b.len() as int] == '-');
    assert(whole.len() == a.len() + 1 + x.len());
    if a.len() < b.len() {
        assert(whole[b.len() as int] == x[b.len() - a.len() - 1]);
    }
    if b.len() < a.len() {
        assert(whole[a.len() as int] == y[a.len() - b.len() - 1]);
    }
    assert(a =~= whole.take(a.len() as int));
    assert(b =~= whole.take(a.len() as int));
    assert(x =~= whole.skip((a.len() + 1) as int));
    assert(y =~= whole.skip((a.len() + 1) as int));
    text::decimals_are_distinct(m, n);
}

/// Different partitions have different queues.
pub proof fn queues_are_distinct(topic: Seq<char>, partition: int, other: Seq<char>, number: int)
    requires
        0 <= partition,
        0 <= number,
        queue_key(topic, partition) == queue_key(other, number),
    ensures
        topic == other,
        partition == number,
{
    lemma_last_dash(topic, partition as nat, other, number as nat);
}

/// Records of different partitions, or from different offsets on, are kept under different
/// names.
pub proof fn records_are_kept_apart(
    topic: Seq<char>,
    partition: int,
    offset: int,
    other: Seq<char>,
    number: int,
    start: int,
)
    requires
        0 <= partition,
        0 <= number,
        0 <= offset,
        0 <= start,
        records_key(topic, partition, offset) == records_key(other, number, start),
    ensures
        topic == other,
        partition == number,
        offset == start,
{
    lemma_last_dash(
        queue_key(topic, partition),
        offset as nat,
        queue_key(other, number),
        start as nat,
    );
    queues_are_distinct(topic, partition, other, number);
}

/// Makes the name of the queue of a partition.
pub fn make_queue_key(topic: &String, partition: i32) -> (key: String)
    ensures
        key@ == queue_key(topic@, partition as int),
{
    proof {
        reveal_strlit("-");
    }
    let mut key = topic.clone();
    key.append("-");
    text::append_decimal(&mut key, partition as i64);
    assert(key@ =~= queue_key(topic@, partition as int));
    key
}

/// Makes the name under which the records of a partition from an offset on are kept.
pub fn make_records_key(topic: &String, partition: i32, offset: i64) -> (key: String)
    ensures
        key@ == records_key(topic@, partition as int, offset as int),
{
    proof {
        reveal_strlit("-");
    }
    let mut key = make_queue_key(topic, partition);
    key.append("-");
    text::append_decimal(&mut key, offset);
    assert(key@ =~= records_key(topic@, partition as int, offset as int));
    key
}

impl FetchRequestDataPartition {
    /// The name under which the proxy looks for the records that were kept.
    pub fn get_shared_data_key(&self) -> (key: String)
        ensures
            key@ == records_key(quoted(self.topic@), self.partition as int, self.fetch_offset as int),
    {
        let topic = quote(&self.topic);
        make_records_key(&topic, self.partition, self.fetch_offset)
    }

    /// The name of the queue of the partition.
    pub fn get_shared_queue_key(&self) -> (key: String)
        ensures
            key@ == queue_key(self.topic@, self.partition as int),
    {
        make_queue_key(&self.topic, self.partition)
    }
}

impl FetchResponseData {
    /// The name under which the records are kept.
    pub fn get_shared_data_key(&self) -> (key: String)
        ensures
            key@ == records_key(self.topic@, self.partition as int, self.fetch_offset as int),
    {
        make_records_key(&self.topic, self.partition, self.fetch_offset)
    }

    /// The name of the queue of the partition.
    pub fn get_shared_queue_key(&self) -> (key: String)
        ensures
            key@ == queue_key(self.topic@, self.partition as int),
    {
        make_queue_key(&self.topic, self.partition)
    }
}

} // verus!
