//! The pnk JSON document model: the types the converter emits. Field
//! names follow the JSON contract in camelCase when serialized; optional
//! values are `Option`s that are left out of the JSON when absent.
use vstd::prelude::*;
use crate::text_util::owned;

verus! {

#[derive(Debug, Clone, Copy, PartialEq, Eq, Structural)]
pub enum ImageFillTechnique {
    NaturalSize,
    Stretch,
    Tile,
    ScaleToFill,
    ScaleToFit,
}

#[derive(Debug, Clone, Copy, PartialEq, Eq, Structural)]
pub enum GradientKind {
    Linear,
    Radial,
}

#[derive(Debug, Clone, Copy, PartialEq, Eq, Structural)]
pub enum ShadowKind {
    Drop,
    Contact,
    Curved,
}

#[derive(Debug, Clone, Copy, PartialEq, Eq, Structural)]
pub enum StrokeCap {
    Butt,
    Round,
    Square,
}

#[derive(Debug, Clone, Copy, PartialEq, Eq, Structural)]
pub enum StrokeJoin {
    Miter,
    Round,
    Bevel,
}

#[derive(Debug, Clone, Copy, PartialEq, Eq, Structural)]
pub enum HorizontalAlignment {
    Left,
    Right,
    Center,
    Justify,
    Auto,
}

#[derive(Debug, Clone, Copy, PartialEq, Eq, Structural)]
pub enum VerticalAlignment {
    Top,
    Middle,
    Bottom,
    Justify,
}

#[derive(Debug, Clone, Copy, PartialEq, Eq, Structural)]
pub enum PageLayoutOrientation {
    Portrait,
    Landscape,
}

#[derive(Debug, Clone, Copy, PartialEq, Eq, Structural)]
pub enum UnderlineStyle {
    /// Written `none` in the JSON model.
    NoUnderline,
    Single,
    Double,
    Wavy,
}

#[derive(Debug, Clone, Copy, PartialEq, Eq, Structural)]
pub enum StrikethroughStyle {
    /// Written `none` in the JSON model.
    NoStrikethrough,
    Single,
    Double,
    Triple,
}

#[derive(Debug, Clone, Copy, PartialEq, Eq, Structural)]
pub enum Capitalization {
    /// Written `none` in the JSON model.
    NoCapitalization,
    AllCaps,
    SmallCaps,
    Title,
}

#[derive(Debug, Clone, Copy, PartialEq, Eq, Structural)]
pub enum BaselineScript {
    Normal,
    Superscript,
    Subscript,
}

#[derive(Debug, Clone, Copy, PartialEq, Eq, Structural)]
pub enum WritingDirection {
    LeftToRight,
    RightToLeft,
}

#[derive(Debug, Clone, Copy, PartialEq, Eq, Structural)]
pub enum LineSpacingMode {
    Min,
    Max,
    SpaceBetween,
}

#[derive(Debug, Clone, Copy, PartialEq, Eq, Structural)]
pub enum TabAlignment {
    Left,
    Center,
    Right,
    Decimal,
}

#[derive(Debug, Clone, Copy, PartialEq, Eq, Structural)]
pub enum NumberSurround {
    Period,
    Paren,
    DoubleParen,
    /// Written `none` in the JSON model.
    Bare,
}

#[derive(Debug, Clone, Copy, PartialEq, Eq, Structural)]
pub enum ListMarkerKind {
    /// Written `none` in the JSON model.
    NoMarker,
    String,
    Number,
    Image,
}

#[derive(Debug, Clone, Copy, PartialEq, Eq, Structural)]
pub enum NumberKind {
    Decimal,
    AlphaUpper,
    AlphaLower,
    RomanUpper,
    RomanLower,
    Other,
}

#[derive(Debug, Clone, Copy, PartialEq, Eq, Structural)]
pub enum AppKind {
    Pages,
    Numbers,
    Keynote,
}

#[derive(Debug, Clone, Copy, PartialEq, Eq, Structural, Hash)]
pub enum WarningCode {
    UnknownObjectType,
    UndecodableObject,
    UnresolvedReference,
    UnsupportedFeature,
    MediaMissing,
    ColorDegraded,
    LegacyVariant,
    TableDegraded,
    FormulaUnparsed,
}

#[derive(Debug, Clone, PartialEq)]
pub struct Warning {
    pub code: WarningCode,
    pub message: String,
    pub path: Option<String>,
    pub detail: Option<String>,
    /// Aggregation: total occurrences this row stands for; None = 1.
    pub count: Option<u32>,
    /// Up to 5 distinct example paths when count > 1.
    pub paths: Option<Vec<String>>,
}

#[derive(Debug, Clone, Copy, PartialEq, Eq, Structural)]
pub enum MediaKind {
    Image,
    Movie,
    Audio,
    Pdf,
    Other,
}

#[derive(Debug, Clone, PartialEq)]
pub struct DocumentMeta {
    pub app: AppKind,
    pub application: Option<String>,
    pub file_format_version: Option<String>,
    pub build_version_history: Option<Vec<String>>,
    pub document_id: Option<String>,
    pub created_at: Option<String>,
    pub modified_at: Option<String>,
    pub author: Option<String>,
    pub locale: Option<String>,
}

/// Tag literals for the tagged variants.
#[derive(Debug, Clone, Copy, PartialEq, Eq, Structural)]
pub enum InlineObjectTag {
    InlineObject,
}

#[derive(Debug, Clone, Copy, PartialEq, Eq, Structural)]
pub enum FieldTag {
    Field,
}

#[derive(Debug, Clone, PartialEq)]
pub enum FieldKind {
    PageNumber,
    PageCount,
    FootnoteMark,
    Date {
        update_plan: DateUpdatePlan,
    },
    Other {
        detail: Option<String>,
    },
}

#[derive(Debug, Clone, Copy, PartialEq, Eq, Structural)]
pub enum DateUpdatePlan {
    Never,
    Auto,
    Once,
}

#[derive(Debug, Clone, Copy, PartialEq, Eq, Structural)]
pub struct Flips {
    pub horizontal: Option<bool>,
    pub vertical: Option<bool>,
}

/// Membership of a text box in a chain of linked text boxes
/// (`TSWP.FlowInfoArchive`: one `text_storage`, ordered `textboxes`). The
/// text is emitted ONCE, on the box with `index` 0; boxes with a higher
/// index carry an empty `text` and receive the overflow of the box before
/// them when laid out. `id` is the flow's `user_interface_identifier` (the
/// number Pages shows on the box's link handles), unique per document.
#[derive(Debug, Clone, Copy, PartialEq, Eq, Structural)]
pub struct TextFlowLink {
    pub id: u32,
    pub index: u32,
    pub count: u32,
}

#[derive(Debug, Clone, Copy, PartialEq, Eq, Structural)]
pub enum TextWrapFit {
    BoundingBox,
    Alpha,
}

#[derive(Debug, Clone, Copy, PartialEq, Eq, Structural)]
pub enum TextWrapKind {
    /// Written `none` in the JSON model.
    NoWrap,
    Around,
    AboveBelow,
    Left,
    Right,
    Largest,
}

#[derive(Debug, Clone, PartialEq)]
pub struct PlaceholderInfo {
    /// Role as stored: "title" | "body" | "object" | "slide-number" |
    /// "placeholder" (generic) | template tag text (Pages).
    pub role: String,
    pub inherited: Option<bool>,
}

#[derive(Debug, Clone, Copy, PartialEq, Eq, Structural)]
pub enum TextFit {
    Grow,
    Shrink,
}

#[derive(Debug, Clone, Copy, PartialEq, Eq, Structural)]
pub enum EquationFormat {
    Latex,
    Mathml,
}

#[derive(Debug, Clone, Copy, PartialEq, Eq, Structural)]
pub enum MovieLoop {
    /// Written `none` in the JSON model.
    NoLoop,
    Repeat,
    BackAndForth,
}

/// A cell comment (Numbers "Comment" on a cell).
#[derive(Debug, Clone, PartialEq)]
pub struct CellComment {
    pub text: String,
    pub author: Option<String>,
    /// ISO 8601 UTC creation date.
    pub date: Option<String>,
}

#[derive(Debug, Clone, Copy, PartialEq, Eq, Structural)]
pub enum CellControlKind {
    Checkbox,
    Stepper,
    Slider,
    Rating,
    Popup,
    Other,
}

/// One rule of the table's Sort panel. [proto: TST.TableSortOrderArchive
/// .SortRuleArchive { index 1 (column), direction 2 (0 asc / 1 desc) }]
#[derive(Debug, Clone, Copy, PartialEq, Eq, Structural)]
pub struct SortRule {
    pub column: u32,
    pub descending: Option<bool>,
}

#[derive(Debug, Clone, Copy, PartialEq, Eq, Structural)]
pub enum CellTypeTag {
    Date,
    Duration,
    Currency,
    Richtext,
    Error,
}

#[derive(Debug, Clone, PartialEq)]
pub struct CellFormat {
    pub kind: CellFormatKind,
    pub decimals: Option<u32>,
    pub currency_code: Option<String>,
    /// Thousands separators shown (TSK.FormatStructArchive.show_thousands_separator).
    pub grouping: Option<bool>,
    /// Accounting style: the currency symbol sits at the left edge of the
    /// cell and the amount at the right (TSK.FormatStructArchive
    /// use_accounting_style, field 6). Present only when true.
    pub accounting: Option<bool>,
    pub format_string: Option<String>,
    /// The custom format's name as shown in the Numbers format list
    /// (kind = custom only). [proto: TSK.CustomFormatArchive.name 1]
    pub name: Option<String>,
}

#[derive(Debug, Clone, Copy, PartialEq, Eq, Structural)]
pub enum CellFormatKind {
    Number,
    Currency,
    Percent,
    Date,
    Duration,
    Text,
    Custom,
    Automatic,
}

#[derive(Debug, Clone, Copy, PartialEq, Eq, Structural)]
pub struct TableMerge {
    pub anchor_row: u32,
    pub anchor_column: u32,
    pub row_span: u32,
    pub column_span: u32,
}

#[derive(Debug, Clone, Copy, PartialEq, Eq, Structural)]
pub struct ChartAxes {
    pub value_gridlines: bool,
    pub category_gridlines: bool,
    pub value_axis_line: bool,
    pub category_axis_line: bool,
    pub value_labels: bool,
    pub category_labels: bool,
}

#[derive(Debug, Clone, PartialEq)]
pub struct ChartNumberFormat {
    pub kind: ChartNumberKind,
    pub decimals: Option<u32>,
    pub thousands_separator: bool,
    pub currency_code: Option<String>,
}

#[derive(Debug, Clone, Copy, PartialEq, Eq, Structural)]
pub enum ChartNumberKind {
    Number,
    Percent,
    Currency,
}

#[derive(Debug, Clone, Copy, PartialEq, Eq, Structural)]
pub enum ChartDataStatus {
    Inline,
    TableBound,
    Unavailable,
}

#[derive(Debug, Clone, Copy, PartialEq, Eq, Structural)]
pub enum ChartScatterFormat {
    SeparateX,
    SharedX,
}

#[derive(Debug, Clone, Copy, PartialEq, Eq, Structural)]
pub enum ChartType {
    Column,
    StackedColumn,
    Bar,
    StackedBar,
    Line,
    Area,
    StackedArea,
    Pie,
    Donut,
    Scatter,
    Bubble,
    Radar,
    Other,
}

/// A table-bound chart's binding formulas by role: one `series` entry per
/// data series (a range, or a union of ranges), row labels and column
/// labels (references or literal strings).
#[derive(Debug, Clone, PartialEq)]
pub struct ChartBindings {
    pub series: Vec<TsceFormulaRef>,
    pub row_labels: Option<Vec<TsceFormulaRef>>,
    pub column_labels: Option<Vec<TsceFormulaRef>>,
}

#[derive(Debug, Clone, Copy, PartialEq, Eq, Structural)]
pub struct GroupAggregate {
    pub column: u32,
    /// Stored summary rule code (ColumnAggregateArchive.agg_type); 2 = sum
    /// [inferred from one sample document], other codes unnamed.
    pub rule: u32,
    pub level: Option<u32>,
}

#[derive(Debug, Clone, PartialEq)]
pub struct TsceFormulaRef {
    pub id: String,
    /// "decoded" = `source_text` holds the formula text re-synthesized from
    /// the TSCE AST (formulas.rs); "unparsed" = kept opaque, see `warning`.
    pub status: String,
    pub source_text: Option<String>,
    /// Present when status is "unparsed".
    pub warning: Option<Warning>,
}

#[derive(Debug, Clone, Copy, PartialEq, Eq, Structural)]
pub enum BuildDelivery {
    In,
    Out,
    Action,
    Other,
}

#[derive(Debug, Clone, Copy, PartialEq, Eq, Structural)]
pub enum BuildAcceleration {
    /// Written `none` in the JSON model.
    NoAcceleration,
    EaseIn,
    EaseOut,
    EaseBoth,
    Custom,
}

#[derive(Debug, Clone, Copy, PartialEq, Eq, Structural)]
pub enum BuildTextDelivery {
    ByObject,
    ByWord,
    ByCharacter,
    ByLine,
}

#[derive(Debug, Clone, Copy, PartialEq, Eq, Structural)]
pub enum KeynotePlayMode {
    Normal,
    AutoPlay,
    HyperlinksOnly,
}

#[derive(Debug, Clone, Copy, PartialEq, Eq, Structural)]
pub enum SoundtrackRepeat {
    /// Written `none` in the JSON model.
    NoRepeat,
    One,
    All,
}

#[derive(Debug, Clone, Copy, PartialEq, Eq, Structural)]
pub enum PageOrder {
    DownThenOver,
    OverThenDown,
}

#[derive(Debug, Clone, PartialEq)]
pub struct SheetStyle {
    pub tab_color: Option<String>,
    pub fill: Option<String>,
}

#[derive(Debug, Clone, PartialEq)]
pub struct NumbersForm {
    pub sheet_name: Option<String>,
    pub bound_table_name: Option<String>,
}

#[derive(Debug, Clone, Copy, PartialEq, Eq, Structural)]
pub enum FirstPageNumberKind {
    Continue,
    RestartAt,
    FromPrevious,
}

#[derive(Debug, Clone, Copy, PartialEq, Eq, Structural)]
pub enum FootnotePlacement {
    SectionEndnotes,
    DocumentEndnotes,
}

/// One tracked change. [proto: TSWP.StorageArchive table_insertion (21) /
/// table_deletion (22) → TSWP.ChangeArchive { kind = 1, session = 2, date = 3 };
/// session → TSWP.ChangeSessionArchive { author = 2, date = 3 }; author →
/// TSK.AnnotationAuthorArchive.name]
#[derive(Debug, Clone, PartialEq)]
pub struct TrackedChange {
    pub kind: ChangeKind,
    /// Index into `body.paragraphs` where the changed range starts.
    pub paragraph_index: u32,
    /// The inserted text (present in `body`) or the deleted text (absent).
    pub text: String,
    pub author: Option<String>,
    pub date: Option<String>,
}

#[derive(Debug, Clone, Copy, PartialEq, Eq, Structural)]
pub enum ChangeKind {
    Insertion,
    Deletion,
}

/// A comment thread anchored at a body position. [proto: TSWP.StorageArchive
/// table_highlight (23) → TSWP.HighlightArchive.commentStorage →
/// TSD.CommentStorageArchive { text = 1, creation_date = 2, author = 3,
/// replies = 4 }; author → TSK.AnnotationAuthorArchive.name]
#[derive(Debug, PartialEq)]
pub struct Comment {
    pub anchor_paragraph_index: u32,
    pub text: String,
    pub author: Option<String>,
    pub date: Option<String>,
    /// The body text the comment highlights, when the range is non-empty.
    pub quoted_text: Option<String>,
    pub replies: Option<Vec<Comment>>,
}

/// A bookmark anchor. [proto: TSWP.StorageArchive table_bookmark (15) →
/// TSWP.BookmarkFieldArchive { super.text_attribute_uuid_string, name = 2 }]
#[derive(Debug, Clone, PartialEq)]
pub struct Bookmark {
    /// The bookmark's UUID; in-document hyperlinks carry it as `#<id>`.
    pub id: String,
    pub name: Option<String>,
    pub paragraph_index: u32,
}

#[derive(Debug, Clone, Copy, PartialEq, Eq, Structural)]
pub enum PagesFlavor {
    WordProcessing,
    PageLayout,
}

#[derive(Debug, Clone, PartialEq)]
pub struct TableOfContents {
    pub entries: Vec<TocEntry>,
}

#[derive(Debug, Clone, PartialEq)]
pub struct TocEntry {
    pub text: String,
    pub page_number: Option<u32>,
    pub level: Option<u32>,
    /// Index into `body.paragraphs` of the heading the entry points at.
    pub paragraph_index: Option<u32>,
}

impl Default for AppKind {
    fn default() -> (r: AppKind)
        ensures
            r == AppKind::Pages,
    {
        AppKind::Pages
    }
}

impl Default for ChartNumberKind {
    fn default() -> (r: ChartNumberKind)
        ensures
            r == ChartNumberKind::Number,
    {
        ChartNumberKind::Number
    }
}

impl Default for BuildDelivery {
    fn default() -> (r: BuildDelivery)
        ensures
            r == BuildDelivery::In,
    {
        BuildDelivery::In
    }
}

impl DocumentMeta {
    /// Metadata with nothing known but the application kind.
    pub fn for_app(app: AppKind) -> (m: DocumentMeta)
        ensures
            m.app == app,
            m.application is None,
            m.file_format_version is None,
            m.build_version_history is None,
            m.document_id is None,
            m.created_at is None,
            m.modified_at is None,
            m.author is None,
            m.locale is None,
    {
        DocumentMeta {
            app,
            application: None,
            file_format_version: None,
            build_version_history: None,
            document_id: None,
            created_at: None,
            modified_at: None,
            author: None,
            locale: None,
        }
    }
}

impl TsceFormulaRef {
    /// A formula kept opaque, with the formula-unparsed warning.
    pub fn unparsed(id: String) -> (r: TsceFormulaRef)
        ensures
            r.id@ == id@,
            r.status@ == "unparsed"@,
            r.source_text is None,
            r.warning matches Some(w) && w.code == WarningCode::FormulaUnparsed
                && w.message@ == "TSCE formula kept opaque; the stored last-calculated value is in the cell/chart data"@
                && w.path is None && w.detail is None && w.count is None && w.paths is None,
    {
        TsceFormulaRef {
            id,
            status: owned("unparsed"),
            source_text: None,
            warning: Some(
                Warning {
                    code: WarningCode::FormulaUnparsed,
                    message: owned(
                        "TSCE formula kept opaque; the stored last-calculated value is in the cell/chart data",
                    ),
                    path: None,
                    detail: None,
                    count: None,
                    paths: None,
                },
            ),
        }
    }

    /// A formula whose text was re-synthesized.
    pub fn decoded(id: String, source_text: String) -> (r: TsceFormulaRef)
        ensures
            r.id@ == id@,
            r.status@ == "decoded"@,
            r.source_text matches Some(t) && t@ == source_text@,
            r.warning is None,
    {
        TsceFormulaRef { id, status: owned("decoded"), source_text: Some(source_text), warning: None }
    }
}

} // verus!
