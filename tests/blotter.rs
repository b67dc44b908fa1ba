use yohsin::{CodecError, DailyBlotterData};

fn order(id: i64) -> DailyBlotterData {
    let t = |s: &str| s.to_string();
    DailyBlotterData {
        orderdate: 1_700_000_000,
        ordertime: 1_700_000_123,
        accountnumber: t("ACC123"),
        accountname: t("Alpha Fund"),
        traderid: t("T42"),
        symbol: t("ACME"),
        ordercc: t("USD"),
        orderit: t("IT"),
        orderid: t("O-1"),
        orderidseq: t("O-1-1"),
        porderid: t("P-1"),
        action: t("BUY"),
        side: t("SELL"),
        qty: 500,
        maxfloor: 100,
        price_bits: 12.25f64.to_bits(),
        type_: t("LIMIT"),
        dest: t("NYSE"),
        qtyexec: 250,
        priceexec_bits: 12.5f64.to_bits(),
        execmkt: t("ARCA"),
        cumqty: 250,
        qtyleaves: 250,
        clorderid: t("C-1"),
        clorderidorig: t("C-0"),
        root: t("ACME"),
        exp: t("2025-01"),
        strike: t("50"),
        ordercp: t("C"),
        clientid: t("CL9"),
        firmid: t("F1"),
        poseff: t("POS"),
        tradeid: t("TR7"),
        execid: t("EX7"),
        datasource: t("DATA_SOURCE"),
        datasubsource: t("SUBSOURCE"),
        ext: t("E"),
        smp: t("S"),
        moi: t("M"),
        stopprice_bits: 11.0f64.to_bits(),
        ordertext: t("note"),
        ordervo: t("V"),
        route: t("ROUTE"),
        ordertf: t("TF"),
        issued: t("I"),
        imidrpt: t("R"),
        imidrcv: t("V"),
        dir: true,
        held: false,
        opid: t("OP"),
        filename: t("f.csv"),
        id,
        tif: t("GTC"),
        isblotter: true,
        extclorderid: t("X-1"),
        trader_name: t("Ann"),
        created_date: 1_700_000_000,
    }
}

#[test]
fn order_schema_has_fixed_size() {
    let schema = DailyBlotterData::schema();
    assert_eq!(schema.kinds.len(), 57);
    assert_eq!(schema.size, 2859);
}

#[test]
fn order_survives_encoding() {
    let o = order(7);
    let schema = DailyBlotterData::schema();
    let bytes = schema.encode(&o.to_record()).unwrap();
    assert_eq!(bytes.len(), 2859);
    let back = DailyBlotterData::from_bytes(&bytes).unwrap();
    assert_eq!(back, o);
    assert_eq!(f64::from_bits(back.price_bits), 12.25);
    assert_eq!(DailyBlotterData::from_record(&o.to_record()), o);
}

#[test]
fn order_bytes_of_wrong_length_are_refused() {
    assert_eq!(
        DailyBlotterData::from_bytes(&[0u8; 100]),
        Err(CodecError::LengthMismatch { expected: 2859, actual: 100 })
    );
}

#[test]
fn order_text_that_is_not_utf8_is_refused() {
    let schema = DailyBlotterData::schema();
    let mut bytes = schema.encode(&order(7).to_record()).unwrap();
    // accountnumber's slot starts after two i64 fields; its text after the length.
    bytes[16 + 2] = 0xFF;
    assert_eq!(DailyBlotterData::from_bytes(&bytes), Err(CodecError::InvalidField { index: 2 }));
}

#[test]
fn overlong_order_text_is_refused() {
    let mut o = order(7);
    o.symbol = "x".repeat(65);
    let schema = DailyBlotterData::schema();
    assert_eq!(schema.encode(&o.to_record()), Err(CodecError::FieldMismatch { index: 5 }));
    o.symbol = "x".repeat(64);
    assert!(schema.encode(&o.to_record()).is_ok());
}
