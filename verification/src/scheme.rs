//! Material color schemes: a mapping of color roles to colors.
use vstd::prelude::*;

verus! {

/// Represents a Material color scheme, a mapping of color roles to colors.
#[derive(Debug, Default, PartialEq, Eq, Clone, Copy)]
pub struct Scheme {
    pub primary: [u8; 4],
    pub primary_fixed: [u8; 4],
    pub primary_fixed_dim: [u8; 4],
    pub on_primary: [u8; 4],
    pub on_primary_fixed: [u8; 4],
    pub on_primary_fixed_variant: [u8; 4],
    pub primary_container: [u8; 4],
    pub on_primary_container: [u8; 4],
    pub secondary: [u8; 4],
    pub secondary_fixed: [u8; 4],
    pub secondary_fixed_dim: [u8; 4],
    pub on_secondary: [u8; 4],
    pub on_secondary_fixed: [u8; 4],
    pub on_secondary_fixed_variant: [u8; 4],
    pub secondary_container: [u8; 4],
    pub on_secondary_container: [u8; 4],
    pub tertiary: [u8; 4],
    pub tertiary_fixed: [u8; 4],
    pub tertiary_fixed_dim: [u8; 4],
    pub on_tertiary: [u8; 4],
    pub on_tertiary_fixed: [u8; 4],
    pub on_tertiary_fixed_variant: [u8; 4],
    pub tertiary_container: [u8; 4],
    pub on_tertiary_container: [u8; 4],
    pub error: [u8; 4],
    pub on_error: [u8; 4],
    pub error_container: [u8; 4],
    pub on_error_container: [u8; 4],
    pub surface: [u8; 4],
    pub on_surface: [u8; 4],
    pub on_surface_variant: [u8; 4],
    pub outline: [u8; 4],
    pub outline_variant: [u8; 4],
    pub shadow: [u8; 4],
    pub scrim: [u8; 4],
    pub inverse_surface: [u8; 4],
    pub inverse_on_surface: [u8; 4],
    pub inverse_primary: [u8; 4],
    pub surface_dim: [u8; 4],
    pub surface_bright: [u8; 4],
    pub surface_container_lowest: [u8; 4],
    pub surface_container_low: [u8; 4],
    pub surface_container: [u8; 4],
    pub surface_container_high: [u8; 4],
    pub surface_container_highest: [u8; 4],
}

/// Represents a Material color scheme in the roles Android uses.
#[derive(Debug, Default, PartialEq, Eq, Clone, Copy)]
pub struct SchemeAndroid {
    pub color_accent_primary: [u8; 4],
    pub color_accent_primary_variant: [u8; 4],
    pub color_accent_secondary: [u8; 4],
    pub color_accent_secondary_variant: [u8; 4],
    pub color_accent_tertiary: [u8; 4],
    pub color_accent_tertiary_variant: [u8; 4],
    pub text_color_primary: [u8; 4],
    pub text_color_secondary: [u8; 4],
    pub text_color_tertiary: [u8; 4],
    pub text_color_primary_inverse: [u8; 4],
    pub text_color_secondary_inverse: [u8; 4],
    pub text_color_tertiary_inverse: [u8; 4],
    pub color_background: [u8; 4],
    pub color_background_floating: [u8; 4],
    pub color_surface: [u8; 4],
    pub color_surface_variant: [u8; 4],
    pub color_surface_highlight: [u8; 4],
    pub surface_header: [u8; 4],
    pub under_surface: [u8; 4],
    pub off_state: [u8; 4],
    pub accent_surface: [u8; 4],
    pub text_primary_on_accent: [u8; 4],
    pub text_secondary_on_accent: [u8; 4],
    pub volume_background: [u8; 4],
    pub scrim: [u8; 4],
}

} // verus!
