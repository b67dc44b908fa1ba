use crate::codec::{
    decode_outcome, field_fits, field_width, lemma_decoded_record_fits, lemma_record_size_bound,
    record_fits, CodecError, FieldKind, FieldModel, FieldValue, Record, Schema,
};
use vstd::prelude::*;

verus! {

/// The byte capacity of each text field of an order record.
pub const TEXT_BYTES: u16 = 64;

/// One order of a daily blotter. Prices are held as the IEEE-754 bit
/// patterns of 64-bit floats.
#[derive(Clone, Debug, PartialEq)]
pub struct DailyBlotterData {
    pub orderdate: i64,
    pub ordertime: i64,
    pub accountnumber: String,
    pub accountname: String,
    pub traderid: String,
    pub symbol: String,
    pub ordercc: String,
    pub orderit: String,
    pub orderid: String,
    pub orderidseq: String,
    pub porderid: String,
    pub action: String,
    pub side: String,
    pub qty: i64,
    pub maxfloor: i32,
    pub price_bits: u64,
    pub type_: String,
    pub dest: String,
    pub qtyexec: i64,
    pub priceexec_bits: u64,
    pub execmkt: String,
    pub cumqty: i32,
    pub qtyleaves: i32,
    pub clorderid: String,
    pub clorderidorig: String,
    pub root: String,
    pub exp: String,
    pub strike: String,
    pub ordercp: String,
    pub clientid: String,
    pub firmid: String,
    pub poseff: String,
    pub tradeid: String,
    pub execid: String,
    pub datasource: String,
    pub datasubsource: String,
    pub ext: String,
    pub smp: String,
    pub moi: String,
    pub stopprice_bits: u64,
    pub ordertext: String,
    pub ordervo: String,
    pub route: String,
    pub ordertf: String,
    pub issued: String,
    pub imidrpt: String,
    pub imidrcv: String,
    pub dir: bool,
    pub held: bool,
    pub opid: String,
    pub filename: String,
    pub id: i64,
    pub tif: String,
    pub isblotter: bool,
    pub extclorderid: String,
    pub trader_name: String,
    pub created_date: i64,
}

/// The field kinds of an order record, in field order.
pub open spec fn blotter_kinds() -> Seq<FieldKind> {
    seq![
        FieldKind::Int64,
        FieldKind::Int64,
        FieldKind::Text(TEXT_BYTES),
        FieldKind::Text(TEXT_BYTES),
        FieldKind::Text(TEXT_BYTES),
        FieldKind::Text(TEXT_BYTES),
        FieldKind::Text(TEXT_BYTES),
        FieldKind::Text(TEXT_BYTES),
        FieldKind::Text(TEXT_BYTES),
        FieldKind::Text(TEXT_BYTES),
        FieldKind::Text(TEXT_BYTES),
        FieldKind::Text(TEXT_BYTES),
        FieldKind::Text(TEXT_BYTES),
        FieldKind::Int64,
        FieldKind::Int32,
        FieldKind::Float64,
        FieldKind::Text(TEXT_BYTES),
        FieldKind::Text(TEXT_BYTES),
        FieldKind::Int64,
        FieldKind::Float64,
        FieldKind::Text(TEXT_BYTES),
        FieldKind::Int32,
        FieldKind::Int32,
        FieldKind::Text(TEXT_BYTES),
        FieldKind::Text(TEXT_BYTES),
        FieldKind::Text(TEXT_BYTES),
        FieldKind::Text(TEXT_BYTES),
        FieldKind::Text(TEXT_BYTES),
        FieldKind::Text(TEXT_BYTES),
        FieldKind::Text(TEXT_BYTES),
        FieldKind::Text(TEXT_BYTES),
        FieldKind::Text(TEXT_BYTES),
        FieldKind::Text(TEXT_BYTES),
        FieldKind::Text(TEXT_BYTES),
        FieldKind::Text(TEXT_BYTES),
        FieldKind::Text(TEXT_BYTES),
        FieldKind::Text(TEXT_BYTES),
        FieldKind::Text(TEXT_BYTES),
        FieldKind::Text(TEXT_BYTES),
        FieldKind::Float64,
        FieldKind::Text(TEXT_BYTES),
        FieldKind::Text(TEXT_BYTES),
        FieldKind::Text(TEXT_BYTES),
        FieldKind::Text(TEXT_BYTES),
        FieldKind::Text(TEXT_BYTES),
        FieldKind::Text(TEXT_BYTES),
        FieldKind::Text(TEXT_BYTES),
        FieldKind::Bool,
        FieldKind::Bool,
        FieldKind::Text(TEXT_BYTES),
        FieldKind::Text(TEXT_BYTES),
        FieldKind::Int64,
        FieldKind::Text(TEXT_BYTES),
        FieldKind::Bool,
        FieldKind::Text(TEXT_BYTES),
        FieldKind::Text(TEXT_BYTES),
        FieldKind::Int64,
    ]
}

impl View for DailyBlotterData {
    type V = Seq<FieldModel>;

    open spec fn view(&self) -> Seq<FieldModel> {
        seq![
            FieldModel::Int64(self.orderdate),
            FieldModel::Int64(self.ordertime),
            FieldModel::Text(self.accountnumber@),
            FieldModel::Text(self.accountname@),
            FieldModel::Text(self.traderid@),
            FieldModel::Text(self.symbol@),
            FieldModel::Text(self.ordercc@),
            FieldModel::Text(self.orderit@),
            FieldModel::Text(self.orderid@),
            FieldModel::Text(self.orderidseq@),
            FieldModel::Text(self.porderid@),
            FieldModel::Text(self.action@),
            FieldModel::Text(self.side@),
            FieldModel::Int64(self.qty),
            FieldModel::Int32(self.maxfloor),
            FieldModel::Float64(self.price_bits),
            FieldModel::Text(self.type_@),
            FieldModel::Text(self.dest@),
            FieldModel::Int64(self.qtyexec),
            FieldModel::Float64(self.priceexec_bits),
            FieldModel::Text(self.execmkt@),
            FieldModel::Int32(self.cumqty),
            FieldModel::Int32(self.qtyleaves),
            FieldModel::Text(self.clorderid@),
            FieldModel::Text(self.clorderidorig@),
            FieldModel::Text(self.root@),
            FieldModel::Text(self.exp@),
            FieldModel::Text(self.strike@),
            FieldModel::Text(self.ordercp@),
            FieldModel::Text(self.clientid@),
            FieldModel::Text(self.firmid@),
            FieldModel::Text(self.poseff@),
            FieldModel::Text(self.tradeid@),
            FieldModel::Text(self.execid@),
            FieldModel::Text(self.datasource@),
            FieldModel::Text(self.datasubsource@),
            FieldModel::Text(self.ext@),
            FieldModel::Text(self.smp@),
            FieldModel::Text(self.moi@),
            FieldModel::Float64(self.stopprice_bits),
            FieldModel::Text(self.ordertext@),
            FieldModel::Text(self.ordervo@),
            FieldModel::Text(self.route@),
            FieldModel::Text(self.ordertf@),
            FieldModel::Text(self.issued@),
            FieldModel::Text(self.imidrpt@),
            FieldModel::Text(self.imidrcv@),
            FieldModel::Bool(self.dir),
            FieldModel::Bool(self.held),
            FieldModel::Text(self.opid@),
            FieldModel::Text(self.filename@),
            FieldModel::Int64(self.id),
            FieldModel::Text(self.tif@),
            FieldModel::Bool(self.isblotter),
            FieldModel::Text(self.extclorderid@),
            FieldModel::Text(self.trader_name@),
            FieldModel::Int64(self.created_date),
        ]
    }
}

impl DailyBlotterData {
    /// The schema of order records.
    pub fn schema() -> (r: Schema)
        ensures
            r.wf(),
            r.kinds@ == blotter_kinds(),
    {
        let kinds: Vec<FieldKind> = vec![
            FieldKind::Int64,
            FieldKind::Int64,
            FieldKind::Text(TEXT_BYTES),
            FieldKind::Text(TEXT_BYTES),
            FieldKind::Text(TEXT_BYTES),
            FieldKind::Text(TEXT_BYTES),
            FieldKind::Text(TEXT_BYTES),
            FieldKind::Text(TEXT_BYTES),
            FieldKind::Text(TEXT_BYTES),
            FieldKind::Text(TEXT_BYTES),
            FieldKind::Text(TEXT_BYTES),
            FieldKind::Text(TEXT_BYTES),
            FieldKind::Text(TEXT_BYTES),
            FieldKind::Int64,
            FieldKind::Int32,
            FieldKind::Float64,
            FieldKind::Text(TEXT_BYTES),
            FieldKind::Text(TEXT_BYTES),
            FieldKind::Int64,
            FieldKind::Float64,
            FieldKind::Text(TEXT_BYTES),
            FieldKind::Int32,
            FieldKind::Int32,
            FieldKind::Text(TEXT_BYTES),
            FieldKind::Text(TEXT_BYTES),
            FieldKind::Text(TEXT_BYTES),
            FieldKind::Text(TEXT_BYTES),
            FieldKind::Text(TEXT_BYTES),
            FieldKind::Text(TEXT_BYTES),
            FieldKind::Text(TEXT_BYTES),
            FieldKind::Text(TEXT_BYTES),
            FieldKind::Text(TEXT_BYTES),
            FieldKind::Text(TEXT_BYTES),
            FieldKind::Text(TEXT_BYTES),
            FieldKind::Text(TEXT_BYTES),
            FieldKind::Text(TEXT_BYTES),
            FieldKind::Text(TEXT_BYTES),
            FieldKind::Text(TEXT_BYTES),
            FieldKind::Text(TEXT_BYTES),
            FieldKind::Float64,
            FieldKind::Text(TEXT_BYTES),
            FieldKind::Text(TEXT_BYTES),
            FieldKind::Text(TEXT_BYTES),
            FieldKind::Text(TEXT_BYTES),
            FieldKind::Text(TEXT_BYTES),
            FieldKind::Text(TEXT_BYTES),
            FieldKind::Text(TEXT_BYTES),
            FieldKind::Bool,
            FieldKind::Bool,
            FieldKind::Text(TEXT_BYTES),
            FieldKind::Text(TEXT_BYTES),
            FieldKind::Int64,
            FieldKind::Text(TEXT_BYTES),
            FieldKind::Bool,
            FieldKind::Text(TEXT_BYTES),
            FieldKind::Text(TEXT_BYTES),
            FieldKind::Int64,
        ];
        proof {
            assert(kinds@ =~= blotter_kinds());
            assert forall|i: int| 0 <= i < kinds@.len() implies field_width(kinds@[i]) <= 66 by {}
            lemma_record_size_bound(kinds@, 66);
        }
        match Schema::new(kinds) {
            Some(s) => s,
            None => Schema { kinds: Vec::new(), size: 0 },
        }
    }

    /// The generic record with this order's field values, in field order.
    pub fn to_record(&self) -> (r: Record)
        ensures
            r@ == self@,
    {
        let fields: Vec<FieldValue> = vec![
            FieldValue::Int64(self.orderdate),
            FieldValue::Int64(self.ordertime),
            FieldValue::Text(self.accountnumber.clone()),
            FieldValue::Text(self.accountname.clone()),
            FieldValue::Text(self.traderid.clone()),
            FieldValue::Text(self.symbol.clone()),
            FieldValue::Text(self.ordercc.clone()),
            FieldValue::Text(self.orderit.clone()),
            FieldValue::Text(self.orderid.clone()),
            FieldValue::Text(self.orderidseq.clone()),
            FieldValue::Text(self.porderid.clone()),
            FieldValue::Text(self.action.clone()),
            FieldValue::Text(self.side.clone()),
            FieldValue::Int64(self.qty),
            FieldValue::Int32(self.maxfloor),
            FieldValue::Float64(self.price_bits),
            FieldValue::Text(self.type_.clone()),
            FieldValue::Text(self.dest.clone()),
            FieldValue::Int64(self.qtyexec),
            FieldValue::Float64(self.priceexec_bits),
            FieldValue::Text(self.execmkt.clone()),
            FieldValue::Int32(self.cumqty),
            FieldValue::Int32(self.qtyleaves),
            FieldValue::Text(self.clorderid.clone()),
            FieldValue::Text(self.clorderidorig.clone()),
            FieldValue::Text(self.root.clone()),
            FieldValue::Text(self.exp.clone()),
            FieldValue::Text(self.strike.clone()),
            FieldValue::Text(self.ordercp.clone()),
            FieldValue::Text(self.clientid.clone()),
            FieldValue::Text(self.firmid.clone()),
            FieldValue::Text(self.poseff.clone()),
            FieldValue::Text(self.tradeid.clone()),
            FieldValue::Text(self.execid.clone()),
            FieldValue::Text(self.datasource.clone()),
            FieldValue::Text(self.datasubsource.clone()),
            FieldValue::Text(self.ext.clone()),
            FieldValue::Text(self.smp.clone()),
            FieldValue::Text(self.moi.clone()),
            FieldValue::Float64(self.stopprice_bits),
            FieldValue::Text(self.ordertext.clone()),
            FieldValue::Text(self.ordervo.clone()),
            FieldValue::Text(self.route.clone()),
            FieldValue::Text(self.ordertf.clone()),
            FieldValue::Text(self.issued.clone()),
            FieldValue::Text(self.imidrpt.clone()),
            FieldValue::Text(self.imidrcv.clone()),
            FieldValue::Bool(self.dir),
            FieldValue::Bool(self.held),
            FieldValue::Text(self.opid.clone()),
            FieldValue::Text(self.filename.clone()),
            FieldValue::Int64(self.id),
            FieldValue::Text(self.tif.clone()),
            FieldValue::Bool(self.isblotter),
            FieldValue::Text(self.extclorderid.clone()),
            FieldValue::Text(self.trader_name.clone()),
            FieldValue::Int64(self.created_date),
        ];
        let r = Record { fields };
        assert(r@ =~= self@);
        r
    }

    /// The order whose field values a record of the order schema holds.
    pub fn from_record(rec: &Record) -> (r: DailyBlotterData)
        requires
            record_fits(blotter_kinds(), rec@),
        ensures
            r@ == rec@,
    {
        let r = DailyBlotterData {
            orderdate: int64_at(rec, 0),
            ordertime: int64_at(rec, 1),
            accountnumber: text_at(rec, 2),
            accountname: text_at(rec, 3),
            traderid: text_at(rec, 4),
            symbol: text_at(rec, 5),
            ordercc: text_at(rec, 6),
            orderit: text_at(rec, 7),
            orderid: text_at(rec, 8),
            orderidseq: text_at(rec, 9),
            porderid: text_at(rec, 10),
            action: text_at(rec, 11),
            side: text_at(rec, 12),
            qty: int64_at(rec, 13),
            maxfloor: int32_at(rec, 14),
            price_bits: float64_at(rec, 15),
            type_: text_at(rec, 16),
            dest: text_at(rec, 17),
            qtyexec: int64_at(rec, 18),
            priceexec_bits: float64_at(rec, 19),
            execmkt: text_at(rec, 20),
            cumqty: int32_at(rec, 21),
            qtyleaves: int32_at(rec, 22),
            clorderid: text_at(rec, 23),
            clorderidorig: text_at(rec, 24),
            root: text_at(rec, 25),
            exp: text_at(rec, 26),
            strike: text_at(rec, 27),
            ordercp: text_at(rec, 28),
            clientid: text_at(rec, 29),
            firmid: text_at(rec, 30),
            poseff: text_at(rec, 31),
            tradeid: text_at(rec, 32),
            execid: text_at(rec, 33),
            datasource: text_at(rec, 34),
            datasubsource: text_at(rec, 35),
            ext: text_at(rec, 36),
            smp: text_at(rec, 37),
            moi: text_at(rec, 38),
            stopprice_bits: float64_at(rec, 39),
            ordertext: text_at(rec, 40),
            ordervo: text_at(rec, 41),
            route: text_at(rec, 42),
            ordertf: text_at(rec, 43),
            issued: text_at(rec, 44),
            imidrpt: text_at(rec, 45),
            imidrcv: text_at(rec, 46),
            dir: bool_at(rec, 47),
            held: bool_at(rec, 48),
            opid: text_at(rec, 49),
            filename: text_at(rec, 50),
            id: int64_at(rec, 51),
            tif: text_at(rec, 52),
            isblotter: bool_at(rec, 53),
            extclorderid: text_at(rec, 54),
            trader_name: text_at(rec, 55),
            created_date: int64_at(rec, 56),
        };
        assert(r@ =~= rec@);
        r
    }

    /// The order held by one encoded record, or why the bytes hold none.
    pub fn from_bytes(bytes: &[u8]) -> (r: Result<DailyBlotterData, CodecError>)
        ensures
            decode_outcome(
                blotter_kinds(),
                bytes@,
                match r {
                    Ok(d) => Ok(d@),
                    Err(e) => Err(e),
                },
            ),
    {
        let schema = DailyBlotterData::schema();
        match schema.decode(bytes) {
            Ok(rec) => {
                proof {
                    lemma_decoded_record_fits(blotter_kinds(), bytes@);
                }
                Ok(DailyBlotterData::from_record(&rec))
            },
            Err(e) => Err(e),
        }
    }
}

fn int64_at(rec: &Record, i: usize) -> (r: i64)
    requires
        i < rec@.len(),
        record_fits(blotter_kinds(), rec@),
        blotter_kinds()[i as int] == FieldKind::Int64,
    ensures
        FieldModel::Int64(r) == rec@[i as int],
{
    assert(field_fits(blotter_kinds()[i as int], rec@[i as int]));
    match &rec.fields[i] {
        FieldValue::Int64(x) => *x,
        _ => 0,
    }
}

fn int32_at(rec: &Record, i: usize) -> (r: i32)
    requires
        i < rec@.len(),
        record_fits(blotter_kinds(), rec@),
        blotter_kinds()[i as int] == FieldKind::Int32,
    ensures
        FieldModel::Int32(r) == rec@[i as int],
{
    assert(field_fits(blotter_kinds()[i as int], rec@[i as int]));
    match &rec.fields[i] {
        FieldValue::Int32(x) => *x,
        _ => 0,
    }
}

fn float64_at(rec: &Record, i: usize) -> (r: u64)
    requires
        i < rec@.len(),
        record_fits(blotter_kinds(), rec@),
        blotter_kinds()[i as int] == FieldKind::Float64,
    ensures
        FieldModel::Float64(r) == rec@[i as int],
{
    assert(field_fits(blotter_kinds()[i as int], rec@[i as int]));
    match &rec.fields[i] {
        FieldValue::Float64(x) => *x,
        _ => 0,
    }
}

fn bool_at(rec: &Record, i: usize) -> (r: bool)
    requires
        i < rec@.len(),
        record_fits(blotter_kinds(), rec@),
        blotter_kinds()[i as int] == FieldKind::Bool,
    ensures
        FieldModel::Bool(r) == rec@[i as int],
{
    assert(field_fits(blotter_kinds()[i as int], rec@[i as int]));
    match &rec.fields[i] {
        FieldValue::Bool(x) => *x,
        _ => false,
    }
}

fn text_at(rec: &Record, i: usize) -> (r: String)
    requires
        i < rec@.len(),
        record_fits(blotter_kinds(), rec@),
        blotter_kinds()[i as int] == FieldKind::Text(TEXT_BYTES),
    ensures
        FieldModel::Text(r@) == rec@[i as int],
{
    assert(field_fits(blotter_kinds()[i as int], rec@[i as int]));
    match &rec.fields[i] {
        FieldValue::Text(t) => t.clone(),
        _ => String::new(),
    }
}

} // verus!
