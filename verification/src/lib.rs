pub mod text;
pub mod tags;
pub mod ranges;
pub mod legend;
pub mod sorted;
pub mod view_filter;
pub mod view_summary;
pub mod paths;
pub mod export;
pub mod plot;
pub mod svg;
pub mod ribbon;
pub mod primitive;
pub mod rules;
pub mod raster;
pub mod pipes;
pub mod orphans;
pub mod xdata;
pub mod groups;
pub mod line_index;
pub mod classes;
pub mod csv;
pub mod report;
pub mod mesh;
pub mod recognition;
pub mod components;
pub mod carry;
pub mod tag_groups;
pub mod signature;
pub mod walk;
