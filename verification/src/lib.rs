//! Representation theory of finite groups: finite groups given by Cayley tables, Young
//! diagrams and tableaux with the characters of the symmetric groups, and the integer side of
//! decompositions, induced representations and symmetry analysis.
pub mod agent_symmetry;
pub mod decomposition;
pub mod group;
pub mod induced;
pub mod murnaghan_nakayama;
pub mod tableau_count;
pub mod tensor;
pub mod young;
