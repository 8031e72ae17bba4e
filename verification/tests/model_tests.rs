use solar_dc::matrix::Matrix;
use solar_dc::model::{derive_mf, ir_irradiance_source, IrSource, ModelError, SolarModel};
use solar_dc::optical_info::{IRViewFactorSet, OpticalInfo};
use solar_dc::solar_surface::Boundary;

#[test]
fn test_derive_mf_finds_discretization() {
    // Bin counts of discretizations 1..=8, as the sky collaborator reports
    // them for one discretization family.
    let counts = [146usize, 578, 1298, 2306, 3602, 5186, 7058, 9218];
    assert_eq!(derive_mf(146, &counts), Ok(1));
    assert_eq!(derive_mf(578, &counts), Ok(2));
    assert_eq!(derive_mf(9218, &counts), Ok(8));
}

#[test]
fn test_derive_mf_zero_columns_is_corrupt() {
    let counts = [146usize, 578];
    assert_eq!(derive_mf(0, &counts), Err(ModelError::CorruptOpticalData));
}

#[test]
fn test_derive_mf_no_match() {
    let counts = [146usize, 578];
    assert_eq!(derive_mf(147, &counts), Err(ModelError::DiscretizationTooHigh));
}

#[test]
fn test_derive_mf_first_match_wins() {
    let counts = [9usize, 9, 9];
    assert_eq!(derive_mf(9, &counts), Ok(1));
}

#[test]
fn test_ir_irradiance_source() {
    assert_eq!(ir_irradiance_source(None), IrSource::SkyAndSurroundings);
    assert_eq!(ir_irradiance_source(Some(&Boundary::Outdoor)), IrSource::SkyAndSurroundings);
    assert_eq!(ir_irradiance_source(Some(&Boundary::Space)), IrSource::NodeTemperature);
    assert_eq!(
        ir_irradiance_source(Some(&Boundary::AmbientTemperature)),
        IrSource::FixedTemperature
    );
    assert_eq!(ir_irradiance_source(Some(&Boundary::Ground)), IrSource::Skipped);
}

#[test]
fn test_solar_model_new() {
    let vf = IRViewFactorSet { sky: 0.5f64, ground: 0.25, air: 0.25 };
    let info = OpticalInfo {
        front_surfaces_view_factors: vec![vf],
        back_surfaces_view_factors: vec![vf],
        front_fenestrations_view_factors: Vec::new(),
        back_fenestrations_view_factors: Vec::new(),
        front_surfaces_dc: Matrix::new(0.0f64, 1, 146),
        back_surfaces_dc: Matrix::new(0.0f64, 1, 146),
        front_fenestrations_dc: Matrix::empty(),
        back_fenestrations_dc: Matrix::empty(),
    };
    let counts = [146usize, 578, 1298, 2306, 3602, 5186, 7058, 9218];
    let model = SolarModel::new(info, &counts).unwrap();
    assert_eq!(model.solar_sky_discretization, 1);
    assert_eq!(model.optical_info.back_surfaces_dc.size(), (1, 146));
}

#[test]
fn test_solar_model_new_rejects_zero_columns() {
    let info: OpticalInfo<f64> = OpticalInfo {
        front_surfaces_view_factors: Vec::new(),
        back_surfaces_view_factors: Vec::new(),
        front_fenestrations_view_factors: Vec::new(),
        back_fenestrations_view_factors: Vec::new(),
        front_surfaces_dc: Matrix::empty(),
        back_surfaces_dc: Matrix::empty(),
        front_fenestrations_dc: Matrix::empty(),
        back_fenestrations_dc: Matrix::empty(),
    };
    let counts = [146usize];
    assert!(SolarModel::new(info, &counts).is_err());
}
