//! The row schema: every column of a capture log, by its header name, with
//! the way its cells are read.
use vstd::prelude::*;
use vstd::string::*;
use crate::codec::ColumnKind;
use crate::numeric::{decimal, push_decimal};

verus! {

/// The number of per-core utilisation columns.
pub const CORE_COLUMNS: usize = 64;

/// The position of `MsBetweenPresents` in the schema.
pub const MS_BETWEEN_PRESENTS: usize = 13;

/// One declared column: its header name and how its cells are read.
#[derive(Clone, Debug)]
pub struct Column {
    pub name: String,
    pub kind: ColumnKind,
}

impl View for Column {
    type V = (Seq<char>, ColumnKind);

    open spec fn view(&self) -> (Seq<char>, ColumnKind) {
        (self.name@, self.kind)
    }
}

pub open spec fn columns_view(v: Seq<Column>) -> Seq<(Seq<char>, ColumnKind)> {
    v.map_values(|c: Column| c@)
}

/// The columns before the per-core group: identification, timing, GPU, power
/// and CPU package signals.
pub open spec fn leading_columns() -> Seq<(Seq<char>, ColumnKind)> {
    seq![
        ("Application"@, ColumnKind::Text),
        ("GPU"@, ColumnKind::Text),
        ("CPU"@, ColumnKind::Text),
        ("Resolution"@, ColumnKind::Text),
        ("Runtime"@, ColumnKind::Text),
        ("AllowsTearing"@, ColumnKind::Flag),
        ("ProcessID"@, ColumnKind::Uint),
        ("SwapChainAddress"@, ColumnKind::Text),
        ("SyncInterval"@, ColumnKind::Float),
        ("PresentFlags"@, ColumnKind::Uint),
        ("PresentMode"@, ColumnKind::Text),
        ("Dropped"@, ColumnKind::Flag),
        ("TimeInSeconds"@, ColumnKind::Float),
        ("MsBetweenPresents"@, ColumnKind::Float),
        ("MsBetweenDisplayChange"@, ColumnKind::Float),
        ("MsInPresentAPI"@, ColumnKind::Float),
        ("MsRenderPresentLatency"@, ColumnKind::Float),
        ("MsUntilDisplayed"@, ColumnKind::Float),
        ("Render Queue Depth"@, ColumnKind::Float),
        ("GPU0Clk(MHz)"@, ColumnKind::Float),
        ("GPU0MemClk(MHz)"@, ColumnKind::Float),
        ("GPU0Util(%)"@, ColumnKind::Float),
        ("GPU0Temp(C)"@, ColumnKind::Float),
        ("GPU1Clk(MHz)"@, ColumnKind::Float),
        ("GPU1MemClk(MHz)"@, ColumnKind::Float),
        ("GPU1Util(%)"@, ColumnKind::Float),
        ("GPU1Temp(C)"@, ColumnKind::Float),
        ("PCAT Power Total(W)"@, ColumnKind::Float),
        ("Perf/W Total(F/J) (PCAT)"@, ColumnKind::Float),
        ("Perf/W Total(F/J) (API)"@, ColumnKind::Float),
        ("Perf/W GPUOnly(F/J) (API)"@, ColumnKind::Float),
        ("Perf/W Total-USBC(F/J) (API)"@, ColumnKind::Float),
        ("GPUOnlyPwr(W) (API)"@, ColumnKind::Float),
        ("NV-Total-USBCPwr(W) (API)"@, ColumnKind::Float),
        ("NV Pwr(W) (API)"@, ColumnKind::Float),
        ("AMDPwr(W) (API)"@, ColumnKind::Float),
        ("CPUClk(MHz)"@, ColumnKind::Float),
        ("CPUUtil(%)"@, ColumnKind::Float),
        ("CPU Package Temp(C)"@, ColumnKind::Float),
        ("CPU Package Power(W)"@, ColumnKind::Float),
        ("CPU TDP (W)"@, ColumnKind::Float),
    ]
}

/// The battery columns, after the per-core group.
pub open spec fn battery_columns() -> Seq<(Seq<char>, ColumnKind)> {
    seq![
        ("Current Battery Capacity(Wh)"@, ColumnKind::Float),
        ("Total Battery Capacity(Wh)"@, ColumnKind::Float),
        ("Battery Percentage"@, ColumnKind::Float),
        ("Battery Drain Rate(W)"@, ColumnKind::Float),
    ]
}

/// A core index as the capture tool writes it: two characters wide, padded
/// with a space on the left.
pub open spec fn core_index_text(i: nat) -> Seq<char> {
    if i < 10 {
        seq![' '] + decimal(i)
    } else {
        decimal(i)
    }
}

/// The header of the utilisation column of core `i`, such as `CPUCoreUtil%[ 7]`.
pub open spec fn core_column_name(i: nat) -> Seq<char> {
    "CPUCoreUtil%["@ + core_index_text(i) + "]"@
}

pub open spec fn core_columns() -> Seq<(Seq<char>, ColumnKind)> {
    Seq::new(CORE_COLUMNS as nat, |i: int| (core_column_name(i as nat), ColumnKind::Float))
}

/// Every declared column, in order.
pub open spec fn schema_spec() -> Seq<(Seq<char>, ColumnKind)> {
    leading_columns() + core_columns() + battery_columns()
}

fn push_column(v: &mut Vec<Column>, name: &str, kind: ColumnKind)
    ensures
        columns_view(final(v)@) == columns_view(old(v)@).push((name@, kind)),
{
    v.push(Column { name: String::from_str(name), kind });
    assert(columns_view(final(v)@) =~= columns_view(old(v)@).push((name@, kind)));
}

fn push_leading_columns(v: &mut Vec<Column>)
    ensures
        columns_view(final(v)@) == columns_view(old(v)@) + leading_columns(),
{
    let ghost start = columns_view(v@);
    push_column(v, "Application", ColumnKind::Text);
    push_column(v, "GPU", ColumnKind::Text);
    push_column(v, "CPU", ColumnKind::Text);
    push_column(v, "Resolution", ColumnKind::Text);
    push_column(v, "Runtime", ColumnKind::Text);
    push_column(v, "AllowsTearing", ColumnKind::Flag);
    push_column(v, "ProcessID", ColumnKind::Uint);
    push_column(v, "SwapChainAddress", ColumnKind::Text);
    push_column(v, "SyncInterval", ColumnKind::Float);
    push_column(v, "PresentFlags", ColumnKind::Uint);
    push_column(v, "PresentMode", ColumnKind::Text);
    push_column(v, "Dropped", ColumnKind::Flag);
    push_column(v, "TimeInSeconds", ColumnKind::Float);
    push_column(v, "MsBetweenPresents", ColumnKind::Float);
    push_column(v, "MsBetweenDisplayChange", ColumnKind::Float);
    push_column(v, "MsInPresentAPI", ColumnKind::Float);
    push_column(v, "MsRenderPresentLatency", ColumnKind::Float);
    push_column(v, "MsUntilDisplayed", ColumnKind::Float);
    push_column(v, "Render Queue Depth", ColumnKind::Float);
    push_column(v, "GPU0Clk(MHz)", ColumnKind::Float);
    push_column(v, "GPU0MemClk(MHz)", ColumnKind::Float);
    push_column(v, "GPU0Util(%)", ColumnKind::Float);
    push_column(v, "GPU0Temp(C)", ColumnKind::Float);
    push_column(v, "GPU1Clk(MHz)", ColumnKind::Float);
    push_column(v, "GPU1MemClk(MHz)", ColumnKind::Float);
    push_column(v, "GPU1Util(%)", ColumnKind::Float);
    push_column(v, "GPU1Temp(C)", ColumnKind::Float);
    push_column(v, "PCAT Power Total(W)", ColumnKind::Float);
    push_column(v, "Perf/W Total(F/J) (PCAT)", ColumnKind::Float);
    push_column(v, "Perf/W Total(F/J) (API)", ColumnKind::Float);
    push_column(v, "Perf/W GPUOnly(F/J) (API)", ColumnKind::Float);
    push_column(v, "Perf/W Total-USBC(F/J) (API)", ColumnKind::Float);
    push_column(v, "GPUOnlyPwr(W) (API)", ColumnKind::Float);
    push_column(v, "NV-Total-USBCPwr(W) (API)", ColumnKind::Float);
    push_column(v, "NV Pwr(W) (API)", ColumnKind::Float);
    push_column(v, "AMDPwr(W) (API)", ColumnKind::Float);
    push_column(v, "CPUClk(MHz)", ColumnKind::Float);
    push_column(v, "CPUUtil(%)", ColumnKind::Float);
    push_column(v, "CPU Package Temp(C)", ColumnKind::Float);
    push_column(v, "CPU Package Power(W)", ColumnKind::Float);
    push_column(v, "CPU TDP (W)", ColumnKind::Float);
    assert(columns_view(v@) =~= start + leading_columns());
}

fn push_battery_columns(v: &mut Vec<Column>)
    ensures
        columns_view(final(v)@) == columns_view(old(v)@) + battery_columns(),
{
    let ghost start = columns_view(v@);
    push_column(v, "Current Battery Capacity(Wh)", ColumnKind::Float);
    push_column(v, "Total Battery Capacity(Wh)", ColumnKind::Float);
    push_column(v, "Battery Percentage", ColumnKind::Float);
    push_column(v, "Battery Drain Rate(W)", ColumnKind::Float);
    assert(columns_view(v@) =~= start + battery_columns());
}

/// The header of the utilisation column of core `i`.
pub fn core_name(i: u64) -> (r: String)
    requires
        i < 100,
    ensures
        r@ == core_column_name(i as nat),
{
    proof {
        reveal_strlit(" ");
    }
    let mut r = String::from_str("CPUCoreUtil%[");
    if i < 10 {
        r.append(" ");
    }
    push_decimal(&mut r, i);
    r.append("]");
    assert(r@ =~= core_column_name(i as nat));
    r
}

/// Every declared column, in order.
pub fn schema() -> (r: Vec<Column>)
    ensures
        columns_view(r@) == schema_spec(),
{
    let mut v: Vec<Column> = Vec::new();
    assert(columns_view(v@) =~= Seq::empty());
    push_leading_columns(&mut v);
    let mut i: usize = 0;
    while i < CORE_COLUMNS
        invariant
            i <= CORE_COLUMNS,
            columns_view(v@) =~= leading_columns() + core_columns().take(i as int),
        decreases CORE_COLUMNS - i,
    {
        let name = core_name(i as u64);
        let ghost before = v@;
        v.push(Column { name, kind: ColumnKind::Float });
        assert(columns_view(v@) =~= columns_view(before).push(
            (core_column_name(i as nat), ColumnKind::Float),
        ));
        assert(core_columns().take(i + 1) =~= core_columns().take(i as int).push(
            (core_column_name(i as nat), ColumnKind::Float),
        ));
        assert(columns_view(v@) =~= leading_columns() + core_columns().take(i + 1));
        i = i + 1;
    }
    assert(core_columns().take(CORE_COLUMNS as int) =~= core_columns());
    push_battery_columns(&mut v);
    v
}

} // verus!
