//! Verified core of a thumbnail and screenshot toolkit: region selection
//! across monitors, exact tone mapping of linear radiance, gamma lookup
//! tables, and aspect-preserving resize targets.

mod format;
mod gamma;
mod region;
mod thumbnail;
mod tone;

pub use format::{has_suffix, source_format, FormatError, SourceFormat};
pub use gamma::{
    apply_gamma, build_gamma_lut, gamma_applied, is_gamma_entry, is_gamma_table,
    lemma_gamma_entry_unique, lemma_gamma_table_shape, lemma_srgb_gamma_not_idempotent,
    lemma_unit_gamma_idempotent, supported_exponent,
};
pub use region::{
    contains_origin, overlap_area, resolve_capture_region, MonitorDescriptor, Rect, RegionError,
    ResolvedRegion,
};
pub use thumbnail::{make_thumbnail, scaled_height, target_height, Thumbnail};
pub use tone::{
    alpha_to_byte, alpha_value, f32_denominator, f32_is_finite_nonneg, f32_is_pos_infinity,
    f32_numerator, lemma_tone_map_limits, lemma_tone_map_monotone, tone_map, tone_map_rgb,
    tone_map_rgba, tone_map_value, tone_mapped_rgb, tone_mapped_rgba,
};
