//! Route tables by region and network operator: address sets, their text
//! form, and the checks around fetching and generating them.

pub mod ranges;
pub mod blocks;
pub mod text;
pub mod family;
pub mod prefix;
pub mod ipset;
pub mod text_form;
pub mod minimal;
pub mod advert;
pub mod source;
pub mod paths;
pub mod fetch;
pub mod generate;
pub mod display;
pub mod publish;
