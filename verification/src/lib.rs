//! Extract fonts used by ASS/SSA dialogue and resolve them against font name tables.
//!
//! 1. Decode subtitle data with [`decode_subtitle`] and parse it with [`extract_fonts`].
//! 2. Scan font data into faces with [`ScanReport::scan_data`].
//! 3. Build a reusable [`FontIndex`] from face metadata and resolve references.
//! 4. Optionally check nominal cmap coverage of the selected faces with [`check_coverage`].
pub mod ass;
pub mod coverage;
pub mod encoding;
pub mod extract_laws;
pub mod fonts;
pub mod index;
pub mod index_laws;
pub mod laws;
pub mod order;
pub mod overrides;
pub mod paths;
pub mod reading_laws;
pub mod resolve;
pub mod scan;
pub mod subtitle;
pub mod summary;
pub mod text;
pub mod ttf;
pub mod unicode;
pub mod utf16;

pub use coverage::{
    CoverageCheck, CoverageReport, CoverageUnavailableReason, FontFile, UncheckableCoverage,
    candidate_paths, check_coverage,
};
pub use encoding::{decode_subtitle, fonts_of_bytes};
pub use fonts::{FontFace, FontName, NameKind};
pub use index::FontIndex;
pub use paths::sorted_unique_paths;
pub use resolve::{
    MatchEvidence, MissingReason, Resolution, ResolveMode, ResolveOptions, ResolveReport,
    SelectionMethod, SynthesisPolicy, WeightMatching,
};
pub use scan::{ScanIssue, ScanReport, face_from_records, is_font_extension};
pub use subtitle::{CharacterUsage, Diagnostic, FontReference, SubtitleFonts, extract_fonts};
pub use summary::CoverageSummary;
pub use text::normalize_name;
pub use ttf::NameRecord;
