pub mod backend;
pub mod base16;
pub mod cache;
pub mod color;
pub mod colorcache;
pub mod degrees;
pub mod filters;
pub mod gui;
pub mod helpers;
pub mod json;
pub mod keywords;
pub mod lexer;
pub mod parser;
pub mod quantizer_wsmeans;
pub mod quantizer_wu;
pub mod render;
pub mod report;
pub mod scheme;
pub mod template;
pub mod text;
pub mod textfilters;
